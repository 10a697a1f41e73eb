//! Why it does not matter in which order regions of exact pixels arrive.

use crate::gpu_cpu_mirror::GpuMirrorPatchRegion;
use crate::gpu_raster_laws::{grouped_in, lemma_grouped_keeps};
use crate::gpu_raster_recovery::{
    build_succeeds, exact_command, group_region, grouped, lemma_checked_sorted,
    lemma_grouped_valid, lemma_total_pixels_grow, named_tiles, region_fault,
    tile_fault, total_pixels,
};
use crate::ordering::{in_order, lemma_sorted, lemma_sorted_contains, stable_sorted, Ranked};
use crate::raster::{LinearRgba, Rect, TileCoord};
use vstd::prelude::*;

verus! {

/// What a command keeps of a region.
pub struct ExactRegionShape {
    pub tile: TileCoord,
    pub bounds: Rect,
    pub initialized: bool,
    pub pixels: Seq<LinearRgba>,
}

pub open(crate) spec fn shape(region: GpuMirrorPatchRegion) -> ExactRegionShape {
    ExactRegionShape {
        tile: region.key.tile,
        bounds: region.local_bounds@,
        initialized: region.initialized,
        pixels: region.pixels@,
    }
}

pub open(crate) spec fn shapes(regions: Seq<GpuMirrorPatchRegion>) -> Seq<ExactRegionShape> {
    Seq::new(regions.len(), |i: int| shape(regions[i]))
}

/// Of the same regions in another order, one has its place in both.
proof fn lemma_place(
    first: Seq<GpuMirrorPatchRegion>,
    second: Seq<GpuMirrorPatchRegion>,
    i: int,
) -> (a: int)
    requires
        first.to_multiset() == second.to_multiset(),
        0 <= i < second.len(),
    ensures
        0 <= a < first.len(),
        first[a] == second[i],
        first.remove(a).to_multiset() == second.remove(i).to_multiset(),
        first.len() == second.len(),
{
    broadcast use vstd::seq_lib::group_to_multiset_ensures;

    assert(second.contains(second[i]));
    assert(second.to_multiset().count(second[i]) > 0);
    assert(first.contains(second[i]));
    let a = choose|a: int| 0 <= a < first.len() && first[a] == second[i];
    assert(first.to_multiset().len() == first.len());
    assert(second.to_multiset().len() == second.len());
    a
}

/// Two regions at different places of one order stand at different places of the other.
proof fn lemma_two_places(
    first: Seq<GpuMirrorPatchRegion>,
    second: Seq<GpuMirrorPatchRegion>,
    i: int,
    j: int,
) -> (places: (int, int))
    requires
        first.to_multiset() == second.to_multiset(),
        0 <= i < j < second.len(),
    ensures
        0 <= places.0 < first.len(),
        0 <= places.1 < first.len(),
        places.0 != places.1,
        first[places.0] == second[i],
        first[places.1] == second[j],
{
    let a = lemma_place(first, second, i);
    let c = lemma_place(first.remove(a), second.remove(i), j - 1);
    let b = if c < a {
        c
    } else {
        c + 1
    };
    assert(first.remove(a)[c] == first[b]);
    (a, b)
}

proof fn lemma_pixels_without(regions: Seq<GpuMirrorPatchRegion>, at: int)
    requires
        0 <= at < regions.len(),
    ensures
        total_pixels(regions) == total_pixels(regions.remove(at)) + regions[at].pixels@.len(),
    decreases regions.len(),
{
    let rest = regions.drop_last();
    if at == regions.len() - 1 {
        assert(regions.remove(at) =~= rest);
    } else {
        lemma_pixels_without(rest, at);
        assert(regions.remove(at).drop_last() =~= rest.remove(at));
        assert(regions.remove(at).last() == regions.last());
    }
}

/// The same regions have the same pixels in any order.
proof fn lemma_same_pixels(first: Seq<GpuMirrorPatchRegion>, second: Seq<GpuMirrorPatchRegion>)
    requires
        first.to_multiset() == second.to_multiset(),
    ensures
        total_pixels(first) == total_pixels(second),
        first.len() == second.len(),
    decreases second.len(),
{
    broadcast use vstd::seq_lib::group_to_multiset_ensures;

    assert(first.to_multiset().len() == first.len());
    assert(second.to_multiset().len() == second.len());
    if second.len() > 0 {
        let i = second.len() - 1;
        let a = lemma_place(first, second, i);
        lemma_pixels_without(first, a);
        lemma_pixels_without(second, i);
        lemma_same_pixels(first.remove(a), second.remove(i));
    }
}

/// The same regions have the same shapes in any order.
proof fn lemma_same_shapes(first: Seq<GpuMirrorPatchRegion>, second: Seq<GpuMirrorPatchRegion>)
    requires
        first.to_multiset() == second.to_multiset(),
    ensures
        shapes(first).to_multiset() == shapes(second).to_multiset(),
    decreases second.len(),
{
    broadcast use vstd::seq_lib::group_to_multiset_ensures;

    assert(first.to_multiset().len() == first.len());
    assert(second.to_multiset().len() == second.len());
    if second.len() > 0 {
        let i = second.len() - 1;
        let a = lemma_place(first, second, i);
        lemma_same_shapes(first.remove(a), second.remove(i));
        assert(shapes(first).remove(a) =~= shapes(first.remove(a)));
        assert(shapes(second).remove(i) =~= shapes(second.remove(i)));
        let removed = shape(second[i]);
        assert(shapes(first)[a] == removed);
        assert(shapes(second)[i] == removed);
        assert(shapes(first).contains(removed));
        assert(shapes(second).contains(removed));
        assert(shapes(first).to_multiset().remove(removed).insert(removed) =~= shapes(
            first,
        ).to_multiset());
        assert(shapes(second).to_multiset().remove(removed).insert(removed) =~= shapes(
            second,
        ).to_multiset());
    } else {
        assert(first =~= second);
    }
}

/// Regions in order whose shapes are the same stand in the same order, where regions that rank
/// alike have one shape.
proof fn lemma_same_order(first: Seq<GpuMirrorPatchRegion>, second: Seq<GpuMirrorPatchRegion>)
    requires
        in_order(first),
        in_order(second),
        shapes(first).to_multiset() == shapes(second).to_multiset(),
        forall|i: int, j: int|
            #![trigger first[i], second[j]]
            0 <= i < first.len() && 0 <= j < second.len() && first[i].le(second[j])
                && second[j].le(first[i]) ==> shape(first[i]) == shape(second[j]),
    ensures
        shapes(first) == shapes(second),
    decreases first.len(),
{
    broadcast use vstd::seq_lib::group_to_multiset_ensures;

    let a = shapes(first);
    let b = shapes(second);
    assert(a.to_multiset().len() == a.len());
    assert(b.to_multiset().len() == b.len());
    if first.len() > 0 {
        let end = first.len() - 1;
        let last = first[end];
        let other = second[end];
        assert(a.contains(a[end]));
        assert(b.to_multiset().count(a[end]) > 0);
        assert(b.contains(a[end]));
        let p = choose|p: int| 0 <= p < b.len() && b[p] == a[end];
        assert(b.contains(b[end]));
        assert(a.to_multiset().count(b[end]) > 0);
        assert(a.contains(b[end]));
        let q = choose|q: int| 0 <= q < a.len() && a[q] == b[end];
        assert(shape(second[p]) == shape(last));
        assert(shape(first[q]) == shape(other));
        assert(p < end ==> second[p].le(second[end]));
        assert(q < end ==> first[q].le(first[end]));
        assert(last.le(other) && other.le(last));
        assert(shape(last) == shape(other));
        let first_rest = first.drop_last();
        let second_rest = second.drop_last();
        assert(a.remove(end) =~= shapes(first_rest));
        assert(b.remove(end) =~= shapes(second_rest));
        assert forall|i: int, j: int|
            #![trigger first_rest[i], first_rest[j]]
            0 <= i < j < first_rest.len() implies first_rest[i].le(first_rest[j]) by {
            assert(first[i].le(first[j]));
        }
        assert forall|i: int, j: int|
            #![trigger second_rest[i], second_rest[j]]
            0 <= i < j < second_rest.len() implies second_rest[i].le(second_rest[j]) by {
            assert(second[i].le(second[j]));
        }
        assert forall|i: int, j: int|
            #![trigger first_rest[i], second_rest[j]]
            0 <= i < first_rest.len() && 0 <= j < second_rest.len() && first_rest[i].le(
                second_rest[j],
            ) && second_rest[j].le(first_rest[i]) implies shape(first_rest[i]) == shape(
            second_rest[j],
        ) by {
            assert(first[i] == first_rest[i] && second[j] == second_rest[j]);
        }
        lemma_same_order(first_rest, second_rest);
        assert forall|i: int| 0 <= i < a.len() implies a[i] == b[i] by {
            if i < end {
                assert(shapes(first_rest)[i] == a[i]);
                assert(shapes(second_rest)[i] == b[i]);
            }
        }
    }
    assert(a =~= b);
}

/// Regions of the same shapes make the same tiles.
proof fn lemma_grouped_by_shape(
    first: Seq<GpuMirrorPatchRegion>,
    second: Seq<GpuMirrorPatchRegion>,
)
    requires
        shapes(first) == shapes(second),
    ensures
        grouped(first) == grouped(second),
    decreases first.len(),
{
    assert(shapes(first).len() == first.len());
    assert(shapes(second).len() == second.len());
    if first.len() > 0 {
        let end = first.len() - 1;
        assert(shapes(first)[end] == shape(first.last()));
        assert(shapes(second)[end] == shape(second.last()));
        assert(shapes(first.drop_last()) =~= shapes(first).drop_last());
        assert(shapes(second.drop_last()) =~= shapes(second).drop_last());
        lemma_grouped_by_shape(first.drop_last(), second.drop_last());
        let earlier = grouped(first.drop_last());
        assert(group_region(earlier, first.last()) == group_region(earlier, second.last()));
    } else {
        assert(second.len() == 0);
    }
}

/// Regions that rank alike have one shape, where a command can be made of them.
proof fn lemma_ties_look_alike(
    tile_size: u32,
    regions: Seq<GpuMirrorPatchRegion>,
    a: GpuMirrorPatchRegion,
    b: GpuMirrorPatchRegion,
)
    requires
        build_succeeds(tile_size, regions),
        regions.contains(a),
        regions.contains(b),
        a.local_bounds@.nonempty(),
        a.le(b),
        b.le(a),
    ensures
        shape(a) == shape(b),
{
    let i = choose|i: int| 0 <= i < regions.len() && regions[i] == a;
    let j = choose|j: int| 0 <= j < regions.len() && regions[j] == b;
    assert(regions[i] == a && regions[j] == b);
    assert(region_fault(tile_size, regions, i) is None);
    assert(region_fault(tile_size, regions, j) is None);
    assert(tile_fault(regions, regions[i].key.tile) is None);
    assert(a.key.tile == b.key.tile);
    assert(a.local_bounds@ == b.local_bounds@);
    if i != j {
        let low = if i < j {
            i
        } else {
            j
        };
        let high = if i < j {
            j
        } else {
            i
        };
        assert(regions[low].initialized == regions[high].initialized);
        let bounds = a.local_bounds@;
        assert(bounds.contains(bounds.min_x, bounds.min_y));
        assert(bounds.overlaps(bounds));
        assert(!(regions[low].initialized && regions[high].initialized));
        assert(a.pixels@ =~= b.pixels@);
    }
}

/// What can be made of regions can be made of them in any order.
proof fn lemma_builds_in_any_order(
    tile_size: u32,
    first: Seq<GpuMirrorPatchRegion>,
    second: Seq<GpuMirrorPatchRegion>,
)
    requires
        build_succeeds(tile_size, first),
        first.to_multiset() == second.to_multiset(),
    ensures
        build_succeeds(tile_size, second),
        named_tiles(second) == named_tiles(first),
{
    lemma_same_pixels(first, second);
    let n = second.len() as int;
    assert(region_fault(tile_size, first, n - 1) is None) by {
        assert(first[n - 1] == first[n - 1]);
    }
    assert(first.subrange(0, n) =~= first);
    let start = lemma_place(first, second, 0);
    assert(region_fault(tile_size, first, start) is None) by {
        assert(first[start] == second[0]);
    }
    assert forall|i: int| #![trigger second[i]] 0 <= i < n implies region_fault(
        tile_size,
        second,
        i,
    ) is None by {
        let a = lemma_place(first, second, i);
        assert(first[a] == second[i]);
        assert(region_fault(tile_size, first, a) is None);
        lemma_total_pixels_grow(second, i + 1);
    }
    assert forall|i: int| #![trigger second[i]] 0 <= i < n implies tile_fault(
        second,
        second[i].key.tile,
    ) is None by {
        let tile = second[i].key.tile;
        let here = lemma_place(first, second, i);
        assert(first[here].key.tile == tile);
        assert(tile_fault(first, tile) is None);
        assert forall|k: int, j: int|
            #![trigger second[k], second[j]]
            0 <= k < j < n && second[k].key.tile == tile && second[j].key.tile
                == tile implies second[k].initialized == second[j].initialized && !(
        second[k].initialized && second[j].initialized && second[k].local_bounds@.overlaps(
            second[j].local_bounds@,
        )) by {
            let (a, b) = lemma_two_places(first, second, k, j);
            assert(first[a].key.tile == tile && first[b].key.tile == tile);
        }
    }
    assert forall|tile: TileCoord|
        named_tiles(second).contains(tile) == named_tiles(first).contains(tile) by {
        if named_tiles(second).contains(tile) {
            let i = choose|i: int| 0 <= i < n && (#[trigger] second[i]).key.tile == tile;
            let a = lemma_place(first, second, i);
            assert(first[a].key.tile == tile);
        }
        if named_tiles(first).contains(tile) {
            let i = choose|i: int| 0 <= i < n && (#[trigger] first[i]).key.tile == tile;
            let a = lemma_place(second, first, i);
            assert(second[a].key.tile == tile);
        }
    }
    assert(named_tiles(second) =~= named_tiles(first));
}

/// It does not matter in which order regions arrive: where a command can be made of them, it can be
/// made of them in any order, and is the same command.
pub proof fn law_region_order_does_not_matter(
    tile_size: u32,
    first: Seq<GpuMirrorPatchRegion>,
    second: Seq<GpuMirrorPatchRegion>,
)
    requires
        build_succeeds(tile_size, first),
        first.to_multiset() == second.to_multiset(),
        forall|i: int| 0 <= i < first.len() ==> (#[trigger] first[i]).local_bounds@.nonempty(),
    ensures
        build_succeeds(tile_size, second),
        grouped(stable_sorted(second)) == grouped(stable_sorted(first)),
        exact_command(tile_size, second, second) == exact_command(tile_size, first, first),
{
    lemma_builds_in_any_order(tile_size, first, second);
    lemma_same_pixels(first, second);
    let a = stable_sorted(first);
    let b = stable_sorted(second);
    lemma_sorted(first);
    lemma_sorted(second);
    lemma_same_shapes(a, b);
    assert forall|i: int, j: int|
        #![trigger a[i], b[j]]
        0 <= i < a.len() && 0 <= j < b.len() && a[i].le(b[j]) && b[j].le(a[i]) implies shape(a[i])
        == shape(b[j]) by {
        assert(a.contains(a[i]));
        assert(b.contains(b[j]));
        lemma_sorted_contains(first, a[i]);
        lemma_sorted_contains(second, b[j]);
        let k = choose|k: int| 0 <= k < second.len() && second[k] == b[j];
        let place = lemma_place(first, second, k);
        assert(first.contains(b[j]));
        let p = choose|p: int| 0 <= p < first.len() && first[p] == a[i];
        assert(first[p].local_bounds@.nonempty());
        lemma_ties_look_alike(tile_size, first, a[i], b[j]);
    }
    lemma_same_order(a, b);
    lemma_grouped_by_shape(a, b);
    let start = lemma_place(first, second, 0);
    assert(region_fault(tile_size, first, start) is None) by {
        assert(first[start] == second[0]);
    }
}

/// A command has one tile for each tile that its regions name.
pub proof fn law_command_counts_the_named_tiles(
    tile_size: u32,
    regions: Seq<GpuMirrorPatchRegion>,
)
    requires
        build_succeeds(tile_size, regions),
        forall|i: int| 0 <= i < regions.len() ==> (#[trigger] regions[i]).local_bounds@.nonempty(),
    ensures
        exact_command(tile_size, regions, regions).tiles.len() == named_tiles(regions).len(),
        named_tiles(regions).finite(),
{
    let sorted = stable_sorted(regions);
    let tiles = grouped(sorted);
    lemma_checked_sorted(tile_size, regions, regions);
    lemma_grouped_valid(tile_size, sorted);
    let coords = Seq::new(tiles.len(), |t: int| tiles[t].coord);
    assert(coords.no_duplicates()) by {
        assert forall|i: int, j: int| 0 <= i < j < coords.len() implies coords[i] != coords[j] by {
            assert(tiles[i].coord != tiles[j].coord);
        }
    }
    assert forall|tile: TileCoord|
        coords.to_set().contains(tile) == named_tiles(regions).contains(tile) by {
        if coords.contains(tile) {
            let t = choose|t: int| 0 <= t < coords.len() && coords[t] == tile;
            assert(tiles[t].coord == tile);
            let i = choose|i: int|
                0 <= i < sorted.len() && (#[trigger] sorted[i]).key.tile == (
                #[trigger] tiles[t]).coord;
            assert(sorted.contains(sorted[i]));
            lemma_sorted_contains(regions, sorted[i]);
            let k = choose|k: int| 0 <= k < regions.len() && regions[k] == sorted[i];
            assert(regions[k].key.tile == tile);
        }
        if named_tiles(regions).contains(tile) {
            let k = choose|k: int| 0 <= k < regions.len() && (#[trigger] regions[k]).key.tile
                == tile;
            assert(regions.contains(regions[k]));
            lemma_sorted_contains(regions, regions[k]);
            let i = choose|i: int| 0 <= i < sorted.len() && sorted[i] == regions[k];
            lemma_grouped_keeps(sorted, i);
            assert(grouped_in(tiles, sorted[i]));
            let t = choose|t: int|
                0 <= t < tiles.len() && (#[trigger] tiles[t]).coord == sorted[i].key.tile;
            assert(coords[t] == tile);
            assert(coords.contains(tile));
        }
    }
    assert(coords.to_set() =~= named_tiles(regions));
    coords.unique_seq_to_set();
}

} // verus!
