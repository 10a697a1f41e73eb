//! Square tiles of pixels in row order.

use crate::raster::{LinearRgba, Rect, RectU32};
use vstd::arithmetic::div_mod::{
    lemma_fundamental_div_mod, lemma_fundamental_div_mod_converse,
};
use vstd::prelude::*;

verus! {

/// The index of the pixel at (`x`, `y`) in rows of `stride` pixels.
pub open spec fn grid_index(stride: int, x: int, y: int) -> int {
    y * stride + x
}

pub open spec fn minimum(a: int, b: int) -> int {
    if a <= b {
        a
    } else {
        b
    }
}

/// An index names one column and one row.
pub proof fn lemma_grid_index(stride: int, x: int, y: int)
    requires
        0 <= x < stride,
        0 <= y,
    ensures
        grid_index(stride, x, y) % stride == x,
        grid_index(stride, x, y) / stride == y,
        grid_index(stride, x, y) >= 0,
{
    assert(y * stride >= 0) by (nonlinear_arith)
        requires
            0 <= y,
            0 < stride,
    ;
    lemma_fundamental_div_mod_converse(y * stride + x, stride, y, x);
}

/// A column and a row name one index.
pub proof fn lemma_grid_position(stride: int, i: int)
    requires
        0 < stride,
        0 <= i,
    ensures
        0 <= i % stride < stride,
        0 <= i / stride,
        grid_index(stride, i % stride, i / stride) == i,
{
    lemma_fundamental_div_mod(i, stride);
    assert(stride * (i / stride) == (i / stride) * stride) by (nonlinear_arith);
    assert(i / stride >= 0) by (nonlinear_arith)
        requires
            0 < stride,
            0 <= i,
    ;
}

/// A pixel inside the rows has an index inside the tile.
pub proof fn lemma_grid_bound(stride: int, rows: int, x: int, y: int)
    requires
        0 <= x < stride,
        0 <= y < rows,
    ensures
        0 <= grid_index(stride, x, y) < rows * stride,
        0 <= y * stride <= rows * stride - stride,
{
    assert(0 <= y * stride) by (nonlinear_arith)
        requires
            0 <= y,
            0 <= stride,
    ;
    assert(y * stride + stride <= rows * stride) by (nonlinear_arith)
        requires
            0 <= y < rows,
            0 <= stride,
    ;
}

/// An index inside the tile lies in one of its rows.
pub proof fn lemma_grid_row(stride: int, rows: int, i: int)
    requires
        0 < stride,
        0 <= i < rows * stride,
    ensures
        0 <= i / stride < rows,
{
    lemma_grid_position(stride, i);
    assert(i / stride < rows) by (nonlinear_arith)
        requires
            0 < stride,
            0 <= i < rows * stride,
            (i / stride) * stride + i % stride == i,
            0 <= i % stride < stride,
    ;
}

/// `base` with the pixels of `source` written over `bounds`, as far as the
/// column lies before `limit_x` and the row before `limit_y`.
pub open spec fn patched(
    base: Seq<LinearRgba>,
    stride: int,
    bounds: Rect,
    limit_x: int,
    limit_y: int,
    source: Seq<LinearRgba>,
) -> Seq<LinearRgba> {
    Seq::new(
        base.len(),
        |i: int|
            {
                let x = i % stride;
                let y = i / stride;
                if bounds.contains(x, y) && x < limit_x && y < limit_y {
                    source[grid_index(bounds.width(), x - bounds.min_x, y - bounds.min_y)]
                } else {
                    base[i]
                }
            },
    )
}

/// Writes `source` over the part of `bounds` that lies before the limits.
pub fn patch_pixels(
    destination: &mut Vec<LinearRgba>,
    stride: u32,
    bounds: RectU32,
    limit_x: u32,
    limit_y: u32,
    source: &Vec<LinearRgba>,
)
    requires
        old(destination)@.len() == stride * stride,
        bounds@.max_x <= stride,
        bounds@.max_y <= stride,
        source@.len() == bounds@.area(),
    ensures
        final(destination)@ == patched(
            old(destination)@,
            stride as int,
            bounds@,
            limit_x as int,
            limit_y as int,
            source@,
        ),
{
    let ghost base = destination@;
    let min_x: u32 = bounds.min_x();
    let min_y: u32 = bounds.min_y();
    let max_x: u32 = if bounds.max_x() <= limit_x { bounds.max_x() } else { limit_x };
    let max_y: u32 = if bounds.max_y() <= limit_y { bounds.max_y() } else { limit_y };
    let width: u32 = bounds.width();
    let height: u32 = bounds.height();
    let len: usize = destination.len();
    let source_len: usize = source.len();
    let ghost target = patched(
        base,
        stride as int,
        bounds@,
        limit_x as int,
        limit_y as int,
        source@,
    );
    let mut y: u32 = min_y;
    while y < max_y
        invariant
            bounds@.nonempty(),
            min_x == bounds@.min_x,
            min_y == bounds@.min_y,
            max_x == minimum(bounds@.max_x, limit_x as int),
            max_y == minimum(bounds@.max_y, limit_y as int),
            width == bounds@.width(),
            height == bounds@.height(),
            bounds@.max_x <= stride,
            bounds@.max_y <= stride,
            source_len == source@.len() == bounds@.area(),
            len == base.len(),
            base.len() == stride * stride,
            destination@.len() == base.len(),
            target == patched(
                base,
                stride as int,
                bounds@,
                limit_x as int,
                limit_y as int,
                source@,
            ),
            min_y <= y,
            forall|i: int|
                #![trigger destination@[i]]
                0 <= i < base.len() ==> destination@[i] == (if i / stride as int >= y {
                    base[i]
                } else {
                    target[i]
                }),
        decreases max_y - y,
    {
        let mut x: u32 = min_x;
        while x < max_x
            invariant
                bounds@.nonempty(),
                min_x == bounds@.min_x,
                min_y == bounds@.min_y,
                max_x == minimum(bounds@.max_x, limit_x as int),
                max_y == minimum(bounds@.max_y, limit_y as int),
                width == bounds@.width(),
                height == bounds@.height(),
                bounds@.max_x <= stride,
                bounds@.max_y <= stride,
                source_len == source@.len() == bounds@.area(),
                len == base.len(),
                base.len() == stride * stride,
                destination@.len() == base.len(),
                target == patched(
                    base,
                    stride as int,
                    bounds@,
                    limit_x as int,
                    limit_y as int,
                    source@,
                ),
                min_y <= y < max_y,
                min_x <= x,
                forall|i: int|
                    #![trigger destination@[i]]
                    0 <= i < base.len() ==> destination@[i] == (if i / stride as int > y || (i
                        / stride as int == y && i % stride as int >= x) {
                        base[i]
                    } else {
                        target[i]
                    }),
            decreases max_x - x,
        {
            proof {
                lemma_grid_bound(stride as int, stride as int, x as int, y as int);
                lemma_grid_index(stride as int, x as int, y as int);
                lemma_grid_bound(width as int, height as int, x - min_x, y - min_y);
                assert(width as int * height as int == height as int * width as int)
                    by (nonlinear_arith);
                lemma_index_fits(stride as int, y as int, len as int);
                lemma_index_fits(width as int, y - min_y, source_len as int);
            }
            let to: usize = y as usize * stride as usize + x as usize;
            let from: usize = (y - min_y) as usize * width as usize + (x - min_x) as usize;
            let ghost before = destination@;
            let pixel = source[from];
            destination.set(to, pixel);
            proof {
                assert forall|i: int|
                    #![trigger destination@[i]]
                    0 <= i < base.len() implies destination@[i] == (if i / stride as int > y || (i
                    / stride as int == y && i % stride as int >= x + 1) {
                    base[i]
                } else {
                    target[i]
                }) by {
                    lemma_grid_position(stride as int, i);
                    if i == to {
                    } else {
                        assert(destination@[i] == before[i]);
                    }
                }
            }
            x += 1;
        }
        proof {
            assert forall|i: int|
                #![trigger destination@[i]]
                0 <= i < base.len() implies destination@[i] == (if i / stride as int >= y + 1 {
                base[i]
            } else {
                target[i]
            }) by {
                lemma_grid_position(stride as int, i);
            }
        }
        y += 1;
    }
    proof {
        assert forall|i: int| 0 <= i < base.len() implies destination@[i] == target[i] by {
            lemma_grid_position(stride as int, i);
        }
        assert(destination@ =~= target);
    }
}

proof fn lemma_index_fits(stride: int, y: int, len: int)
    requires
        0 <= stride,
        0 <= y,
        y * stride <= len,
        len <= usize::MAX,
    ensures
        0 <= y * stride <= usize::MAX,
{
    assert(0 <= y * stride) by (nonlinear_arith)
        requires
            0 <= stride,
            0 <= y,
    ;
}

} // verus!
