//! Pixel-level image operations: conversion between raw RGB buffers and rasters,
//! drawing, and colouring an image by groups of pixels.
use vstd::prelude::*;
use vstd::arithmetic::div_mod::{
    lemma_div_by_multiple,
    lemma_div_denominator,
    lemma_div_is_ordered,
    lemma_div_pos_is_pos,
    lemma_fundamental_div_mod,
    lemma_fundamental_div_mod_converse,
    lemma_div_multiples_vanish,
    lemma_mod_pos_bound,
    lemma_multiply_divide_lt,
};
use crate::ndgrid::{
    flat3, raster_cells, raster_in_bounds, shape_fits3, raster_at, raster_row_major, raster_shape, unflat3, Raster,
};

verus! {

/// Row-major positions and coordinates correspond one to one.
pub proof fn lemma_unflat3(h: int, w: int, d: int, n: int)
    requires
        0 < w <= usize::MAX,
        0 < d <= usize::MAX,
        0 <= h <= usize::MAX,
        0 <= n < h * w * d,
    ensures
        unflat3(w, d, n).0 < h,
        unflat3(w, d, n).1 < w,
        unflat3(w, d, n).2 < d,
        flat3(
            w,
            d,
            unflat3(w, d, n).0 as int,
            unflat3(w, d, n).1 as int,
            unflat3(w, d, n).2 as int,
        ) == n,
{
    let q = n / d;
    let k = n % d;
    lemma_fundamental_div_mod(n, d);
    lemma_mod_pos_bound(n, d);
    lemma_div_pos_is_pos(n, d);
    let i = q / w;
    let j = q % w;
    lemma_fundamental_div_mod(q, w);
    lemma_mod_pos_bound(q, w);
    lemma_div_pos_is_pos(q, w);
    lemma_div_denominator(n, d, w);
    assert(d * w == w * d) by (nonlinear_arith);
    assert(n < d * (h * w)) by (nonlinear_arith)
        requires
            n < h * w * d,
    ;
    lemma_multiply_divide_lt(n, d, h * w);
    assert(q < w * h) by (nonlinear_arith)
        requires
            q < h * w,
    ;
    lemma_multiply_divide_lt(q, w, h);
    assert((i * w + j) * d + k == n) by (nonlinear_arith)
        requires
            n == d * q + k,
            q == w * i + j,
    ;
}

/// The cell of a `(height, width, 3)` raster built from a raw RGB buffer.
pub open spec fn raw_rgb_at(raw: Seq<u8>, width: int, i: int, j: int, k: int) -> u8 {
    raw[flat3(width, 3, i, j, k)]
}

/// Builds a `(height, width, 3)` raster from a row-major RGB buffer, as an RGB
/// image stores its pixels.
pub fn image_to_array(height: u32, width: u32, raw: Vec<u8>) -> (res: Raster)
    requires
        raw@.len() == height * width * 3,
        shape_fits3(height as int, width as int, 3),
    ensures
        raster_shape(res) == (height as usize, width as usize, 3usize),
        forall|i: usize, j: usize, k: usize|
            i < height && j < width && k < 3 ==> #[trigger] raster_at(res, i, j, k) == raw_rgb_at(
                raw@,
                width as int,
                i as int,
                j as int,
                k as int,
            ),
        forall|i: usize, j: usize, k: usize|
            i < height && j < width && k < 3 ==> #[trigger] raster_at(res, i, j, k) == raw@[(i
                * width + j) * 3 + k],
{
    let h = height as usize;
    let w = width as usize;
    let res = Raster::from_shape_vec(h, w, 3, raw);
    res.unwrap()
}

/// Splits a raster into what an RGB image is made of: its width, its height (both
/// truncated to `u32`, as the image type takes them) and its bytes in row-major order.
pub fn array_to_image(array: &Raster) -> (res: (u32, u32, Vec<u8>))
    ensures
        res.0 == raster_shape(*array).1 as u32,
        res.1 == raster_shape(*array).0 as u32,
        res.2@ == raster_row_major(*array),
        res.2@.len() == raster_shape(*array).0 * raster_shape(*array).1 * raster_shape(*array).2,
        forall|i: usize, j: usize, k: usize|
            raster_in_bounds(*array, i as int, j as int, k as int) ==> res.2@[(i
                * raster_shape(*array).1 + j) * raster_shape(*array).2 + k] == #[trigger] raster_at(
                *array,
                i,
                j,
                k,
            ),
{
    let (height, width, depth) = array.dim();
    let raw = array.to_raw_vec();
    proof {
        assert forall|i: usize, j: usize, k: usize|
            raster_in_bounds(*array, i as int, j as int, k as int) implies raw@[(i * width + j)
                * depth + k] == #[trigger] raster_at(*array, i, j, k) by {
            lemma_flat3_unflat3(height as int, width as int, depth as int, i as int, j as int, k as int);
        }
    }
    (width as u32, height as u32, raw)
}

/// Reading back a raster built from an RGB buffer gives the buffer again.
pub proof fn lemma_image_array_roundtrip(r: Raster, raw: Seq<u8>, height: int, width: int)
    requires
        0 <= height <= usize::MAX,
        0 <= width <= usize::MAX,
        raster_shape(r) == (height as usize, width as usize, 3usize),
        raw.len() == height * width * 3,
        forall|i: usize, j: usize, k: usize|
            i < height && j < width && k < 3 ==> #[trigger] raster_at(r, i, j, k) == raw_rgb_at(
                raw,
                width,
                i as int,
                j as int,
                k as int,
            ),
    ensures
        raster_row_major(r) == raw,
{
    let rm = raster_row_major(r);
    assert(rm.len() == raw.len());
    if width == 0 {
        assert(height * width * 3 == 0) by (nonlinear_arith)
            requires
                width == 0,
        ;
    }
    assert forall|n: int| 0 <= n < raw.len() implies rm[n] == raw[n] by {
        lemma_unflat3(height, width, 3, n);
        let (i, j, k) = unflat3(width, 3, n);
        assert(raster_at(r, i, j, k) == raw_rgb_at(raw, width, i as int, j as int, k as int));
    }
    assert(rm =~= raw);
}

/// Where `ndarray` stops a range `start..end` on an axis of length `len`: a negative
/// end counts back from the end of the axis, and an end before the start makes the
/// range empty.
pub open spec fn slice_stop(len: int, start: int, end: int) -> int {
    let e = if end < 0 {
        len + end
    } else {
        end
    };
    if e < start {
        start
    } else {
        e
    }
}

/// `ndarray` takes the range `start..end`, with `start >= 0`, on an axis of length
/// `len` without panicking.
pub open spec fn slice_fits(len: int, start: int, end: int) -> bool {
    &&& start <= len
    &&& len + end >= 0
    &&& slice_stop(len, start, end) <= len
}

/// `v` is a value of `i32`.
pub open spec fn in_i32(v: int) -> bool {
    i32::MIN <= v <= i32::MAX
}

/// The brush's edge test on a `height` by `width` image runs without overflow. It
/// computes `x - b`, `y - b`, `x + b` and `y + b` in `i32` in that order, stopping at
/// the first one that puts the square past an edge.
pub open spec fn brush_no_overflow(height: int, width: int, x: int, y: int, b: int) -> bool {
    &&& in_i32(x - b)
    &&& x - b >= 0 ==> in_i32(y - b)
    &&& x - b >= 0 && y - b >= 0 ==> in_i32(x + b)
    &&& x - b >= 0 && y - b >= 0 && x + b < width as i32 ==> in_i32(y + b)
}

/// The brush of half-size `b` centred at `(x, y)` paints: no edge test fires, with the
/// image sides taken as `i32` (truncated, as the cast does).
pub open spec fn brush_applies(height: int, width: int, x: int, y: int, b: int) -> bool {
    !(x - b < 0 || y - b < 0 || x + b >= width as i32 || y + b >= height as i32)
}

/// The brush paints pixel `(i, j)` (row, column): rows `y - b .. y + b` and columns
/// `x - b .. x + b`, each as `ndarray` slices the range.
pub open spec fn brush_covers(
    height: int,
    width: int,
    x: int,
    y: int,
    b: int,
    i: int,
    j: int,
) -> bool {
    &&& brush_applies(height, width, x, y, b)
    &&& y - b <= i < slice_stop(height, y - b, y + b)
    &&& x - b <= j < slice_stop(width, x - b, x + b)
}

/// The end of the brush's range along an axis of length `len`, from its start and the
/// (possibly negative) end.
fn brush_stop(len: usize, start: usize, end: i32) -> (res: usize)
    requires
        slice_fits(len as int, start as int, end as int),
    ensures
        res == slice_stop(len as int, start as int, end as int),
        res <= len,
{
    let e: usize = if end < 0 {
        let back = (0i64 - end as i64) as usize;
        len - back
    } else {
        end as usize
    };
    if e < start {
        start
    } else {
        e
    }
}

/// Paints black the square of half-size `brush_size` around column `x`, row `y`, on
/// every channel, or leaves the image unchanged when an edge test fires. The rows
/// `y - brush_size .. y + brush_size` and columns `x - brush_size .. x + brush_size`
/// are taken as `ndarray` slices them, so a negative size is accepted too.
pub fn brush(image: &mut Raster, x: i32, y: i32, brush_size: i32)
    requires
        brush_no_overflow(
            raster_shape(*old(image)).0 as int,
            raster_shape(*old(image)).1 as int,
            x as int,
            y as int,
            brush_size as int,
        ),
        brush_applies(
            raster_shape(*old(image)).0 as int,
            raster_shape(*old(image)).1 as int,
            x as int,
            y as int,
            brush_size as int,
        ) ==> {
            &&& slice_fits(raster_shape(*old(image)).0 as int, y - brush_size, y + brush_size)
            &&& slice_fits(raster_shape(*old(image)).1 as int, x - brush_size, x + brush_size)
        },
    ensures
        raster_shape(*final(image)) == raster_shape(*old(image)),
        !brush_applies(
            raster_shape(*old(image)).0 as int,
            raster_shape(*old(image)).1 as int,
            x as int,
            y as int,
            brush_size as int,
        ) ==> *final(image) == *old(image),
        forall|i: usize, j: usize, k: usize|
            raster_in_bounds(*old(image), i as int, j as int, k as int) ==> #[trigger] raster_at(
                *final(image),
                i,
                j,
                k,
            ) == if brush_covers(
                raster_shape(*old(image)).0 as int,
                raster_shape(*old(image)).1 as int,
                x as int,
                y as int,
                brush_size as int,
                i as int,
                j as int,
            ) {
                0u8
            } else {
                raster_at(*old(image), i, j, k)
            },
        forall|i: usize, j: usize, k: usize|
            raster_in_bounds(*old(image), i as int, j as int, k as int) && 0 <= brush_size && 0 <= x
                - brush_size && 0 <= y - brush_size && x + brush_size < raster_shape(
                *old(image),
            ).1 as i32 && y + brush_size < raster_shape(*old(image)).0 as i32 && y - brush_size <= i
                < y + brush_size && x - brush_size <= j < x + brush_size ==> #[trigger] raster_at(
                *final(image),
                i,
                j,
                k,
            ) == 0u8,
        forall|i: usize, j: usize, k: usize|
            raster_in_bounds(*old(image), i as int, j as int, k as int) && 0 <= brush_size && !(y
                - brush_size <= i < y + brush_size && x - brush_size <= j < x + brush_size)
                ==> #[trigger] raster_at(*final(image), i, j, k) == raster_at(*old(image), i, j, k),
{
    let (height, width, depth) = image.dim();
    let hl = height as i32;
    let wl = width as i32;
    assert(hl == (height as int) as i32 && wl == (width as int) as i32);
    if x - brush_size < 0 || y - brush_size < 0 || x + brush_size >= wl || y + brush_size >= hl {
        return ;
    }
    let ghost shape = raster_shape(*image);
    let ghost orig = raster_cells(*image);
    let y0 = (y - brush_size) as usize;
    let y1 = brush_stop(height, y0, y + brush_size);
    let x0 = (x - brush_size) as usize;
    let x1 = brush_stop(width, x0, x + brush_size);
    let mut i = y0;
    while i < y1
        invariant
            y0 <= i <= y1 <= height,
            x0 <= x1 <= width,
            shape == (height, width, depth),
            raster_shape(*image) == shape,
            forall|a: usize, c: usize, e: usize|
                a < height && c < width && e < depth ==> #[trigger] raster_cells(*image)[(a, c, e)]
                    == if y0 <= a < i && x0 <= c < x1 {
                    0u8
                } else {
                    orig[(a, c, e)]
                },
        decreases y1 - i,
    {
        let mut j = x0;
        while j < x1
            invariant
                y0 <= i < y1 <= height,
                x0 <= j <= x1 <= width,
                shape == (height, width, depth),
                raster_shape(*image) == shape,
                forall|a: usize, c: usize, e: usize|
                    a < height && c < width && e < depth ==> #[trigger] raster_cells(*image)[(a, c, e)]
                        == if (y0 <= a < i && x0 <= c < x1) || (a == i && x0 <= c < j) {
                        0u8
                    } else {
                        orig[(a, c, e)]
                    },
            decreases x1 - j,
        {
            let mut k: usize = 0;
            while k < depth
                invariant
                    y0 <= i < y1 <= height,
                    x0 <= j < x1 <= width,
                    k <= depth,
                    shape == (height, width, depth),
                    raster_shape(*image) == shape,
                    forall|a: usize, c: usize, e: usize|
                        a < height && c < width && e < depth ==> #[trigger] raster_cells(*image)[(a, c, e)] == if (y0 <= a < i && x0 <= c < x1) || (a == i && x0 <= c < j) || (a
                            == i && c == j && e < k) {
                            0u8
                        } else {
                            orig[(a, c, e)]
                        },
                decreases depth - k,
            {
                image.set(i, j, k, 0);
                k += 1;
            }
            j += 1;
        }
        i += 1;
    }
}

/// A unit brush that applies stays within the image.
proof fn lemma_unit_brush_fits(height: int, width: int, x: int, y: int)
    requires
        0 <= height,
        0 <= width,
    ensures
        brush_applies(height, width, x, y, 1) ==> {
            &&& slice_fits(height, y - 1, y + 1)
            &&& slice_fits(width, x - 1, x + 1)
        },
{
    if height <= i32::MAX {
        assert(height as i32 == height);
    }
    if width <= i32::MAX {
        assert(width as i32 == width);
    }
}

/// Some mark's unit brush paints pixel `(i, j)`.
pub open spec fn marked(marks: Seq<(i32, i32)>, height: int, width: int, i: int, j: int) -> bool {
    exists|m: int|
        0 <= m < marks.len() && brush_covers(
            height,
            width,
            #[trigger] marks[m].0 as int,
            marks[m].1 as int,
            1,
            i,
            j,
        )
}

/// Draws a mesh picture: a white `(height, width, 3)` canvas on which a unit brush
/// paints every mark `(column, row)` black.
pub fn build_mesh_image(height: usize, width: usize, marks: &Vec<(i32, i32)>) -> (res: Raster)
    requires
        shape_fits3(height as int, width as int, 3),
        forall|m: int|
            0 <= m < marks@.len() ==> brush_no_overflow(
                height as int,
                width as int,
                #[trigger] marks@[m].0 as int,
                marks@[m].1 as int,
                1,
            ),
    ensures
        raster_shape(res) == (height, width, 3usize),
        forall|i: usize, j: usize, k: usize|
            i < height && j < width && k < 3 ==> #[trigger] raster_at(res, i, j, k) == if marked(
                marks@,
                height as int,
                width as int,
                i as int,
                j as int,
            ) {
                0u8
            } else {
                255u8
            },
        forall|m: int, i: usize, j: usize, k: usize|
            #![trigger marks@[m], raster_at(res, i, j, k)]
            0 <= m < marks@.len() && k < 3 && 1 <= marks@[m].0 && marks@[m].0 + 1 < width as i32
                && 1 <= marks@[m].1 && marks@[m].1 + 1 < height as i32 && marks@[m].1 - 1 <= i
                <= marks@[m].1 && marks@[m].0 - 1 <= j <= marks@[m].0 ==> raster_at(res, i, j, k)
                == 0u8,
        forall|i: usize, j: usize, k: usize|
            i < height && j < width && k < 3 && (forall|m: int|
                0 <= m < marks@.len() ==> !(marks@[m].1 - 1 <= i <= #[trigger] marks@[m].1
                    && marks@[m].0 - 1 <= j <= marks@[m].0)) ==> #[trigger] raster_at(res, i, j, k)
                == 255u8,
{
    let mut image = Raster::from_elem(height, width, 3, 255);
    let mut t: usize = 0;
    assert forall|i: usize, j: usize, k: usize|
        i < height && j < width && k < 3 implies #[trigger] raster_cells(image)[(i, j, k)] == if marked(
            marks@.take(0),
            height as int,
            width as int,
            i as int,
            j as int,
        ) {
            0u8
        } else {
            255u8
        } by {
        assert(raster_at(image, i, j, k) == 255u8);
    }
    while t < marks.len()
        invariant
            t <= marks@.len(),
            forall|m: int|
                0 <= m < marks@.len() ==> brush_no_overflow(
                    height as int,
                    width as int,
                    #[trigger] marks@[m].0 as int,
                    marks@[m].1 as int,
                    1,
                ),
            raster_shape(image) == (height, width, 3usize),
            forall|i: usize, j: usize, k: usize|
                i < height && j < width && k < 3 ==> #[trigger] raster_cells(image)[(i, j, k)]
                    == if marked(marks@.take(t as int), height as int, width as int, i as int, j as int) {
                    0u8
                } else {
                    255u8
                },
        decreases marks@.len() - t,
    {
        let (x, y) = marks[t];
        let ghost before = image;
        assert(brush_no_overflow(height as int, width as int, marks@[t as int].0 as int, marks@[t as int].1 as int, 1));
        proof {
            lemma_unit_brush_fits(height as int, width as int, x as int, y as int);
        }
        brush(&mut image, x, y, 1);
        assert forall|i: usize, j: usize, k: usize|
            i < height && j < width && k < 3 implies #[trigger] raster_cells(image)[(i, j, k)]
                == if marked(marks@.take(t + 1), height as int, width as int, i as int, j as int) {
                0u8
            } else {
                255u8
            } by {
            let covers = brush_covers(height as int, width as int, x as int, y as int, 1, i as int, j as int);
            assert(raster_at(image, i, j, k) == if covers { 0u8 } else { raster_at(before, i, j, k) });
            let old_seq = marks@.take(t as int);
            let new_seq = marks@.take(t + 1);
            assert(new_seq[t as int] == marks@[t as int]);
            if marked(old_seq, height as int, width as int, i as int, j as int) {
                let m = choose|m: int|
                    0 <= m < old_seq.len() && brush_covers(
                        height as int,
                        width as int,
                        #[trigger] old_seq[m].0 as int,
                        old_seq[m].1 as int,
                        1,
                        i as int,
                        j as int,
                    );
                assert(new_seq[m] == old_seq[m]);
            }
            if marked(new_seq, height as int, width as int, i as int, j as int) && !covers {
                let m = choose|m: int|
                    0 <= m < new_seq.len() && brush_covers(
                        height as int,
                        width as int,
                        #[trigger] new_seq[m].0 as int,
                        new_seq[m].1 as int,
                        1,
                        i as int,
                        j as int,
                    );
                assert(new_seq[m] == old_seq[m]);
            }
        }
        t += 1;
    }
    assert(marks@.take(marks@.len() as int) =~= marks@);
    proof {
        lemma_mesh_image_mark_squares(height, width, marks@, image);
    }
    image
}

/// In a mesh picture, a mark `(x, y)` is a column and a row: the unit brush blackens
/// rows `y - 1` and `y` of columns `x - 1` and `x` when that square lies inside the
/// image with a pixel to spare on the far sides (the sides read as `i32`, as the
/// drawing reads them), and every pixel outside all the marks' squares stays white.
/// `res` is any picture that `build_mesh_image` may return on `height`, `width` and
/// `marks`.
pub proof fn lemma_mesh_image_mark_squares(
    height: usize,
    width: usize,
    marks: Seq<(i32, i32)>,
    res: Raster,
)
    requires
        raster_shape(res) == (height, width, 3usize),
        forall|i: usize, j: usize, k: usize|
            i < height && j < width && k < 3 ==> #[trigger] raster_at(res, i, j, k) == if marked(
                marks,
                height as int,
                width as int,
                i as int,
                j as int,
            ) {
                0u8
            } else {
                255u8
            },
    ensures
        forall|m: int, i: usize, j: usize, k: usize|
            #![trigger marks[m], raster_at(res, i, j, k)]
            0 <= m < marks.len() && k < 3 && 1 <= marks[m].0 && marks[m].0 + 1 < width as i32
                && 1 <= marks[m].1 && marks[m].1 + 1 < height as i32 && marks[m].1 - 1 <= i
                <= marks[m].1 && marks[m].0 - 1 <= j <= marks[m].0 ==> raster_at(res, i, j, k)
                == 0u8,
        forall|i: usize, j: usize, k: usize|
            i < height && j < width && k < 3 && (forall|m: int|
                0 <= m < marks.len() ==> !(marks[m].1 - 1 <= i <= #[trigger] marks[m].1
                    && marks[m].0 - 1 <= j <= marks[m].0)) ==> #[trigger] raster_at(res, i, j, k)
                == 255u8,
{
    assert forall|m: int, i: usize, j: usize, k: usize|
        #![trigger marks[m], raster_at(res, i, j, k)]
        0 <= m < marks.len() && k < 3 && 1 <= marks[m].0 && marks[m].0 + 1 < width as i32 && 1
            <= marks[m].1 && marks[m].1 + 1 < height as i32 && marks[m].1 - 1 <= i <= marks[m].1
            && marks[m].0 - 1 <= j <= marks[m].0 implies raster_at(res, i, j, k) == 0u8 by {
        let x = marks[m].0 as int;
        let y = marks[m].1 as int;
        if height <= i32::MAX {
            assert(height as i32 == height);
        }
        if width <= i32::MAX {
            assert(width as i32 == width);
        }
        assert(i < height && j < width);
        assert(brush_covers(height as int, width as int, x, y, 1, i as int, j as int));
        assert(marked(marks, height as int, width as int, i as int, j as int));
    }
    assert forall|i: usize, j: usize, k: usize|
        i < height && j < width && k < 3 && (forall|m: int|
            0 <= m < marks.len() ==> !(marks[m].1 - 1 <= i <= #[trigger] marks[m].1 && marks[m].0
                - 1 <= j <= marks[m].0)) implies #[trigger] raster_at(res, i, j, k) == 255u8 by {
        if marked(marks, height as int, width as int, i as int, j as int) {
            let m = choose|m: int|
                0 <= m < marks.len() && brush_covers(
                    height as int,
                    width as int,
                    #[trigger] marks[m].0 as int,
                    marks[m].1 as int,
                    1,
                    i as int,
                    j as int,
                );
            assert(!(marks[m].1 - 1 <= i <= marks[m].1 && marks[m].0 - 1 <= j <= marks[m].0));
        }
    }
}

/// A colour lookup table: for each triangle the pixels `(row, column)` it owns, and
/// the colour it is painted with.
pub type LUT = (Vec<Vec<(usize, usize)>>, Vec<[u8; 3]>);

/// The pixel groups of a table, as sequences.
pub open spec fn groups_view(groups: Seq<Vec<(usize, usize)>>) -> Seq<Seq<(usize, usize)>> {
    groups.map_values(|g: Vec<(usize, usize)>| g@)
}

/// The colours of a table, as sequences of channel values.
pub open spec fn colors_view(colors: Seq<[u8; 3]>) -> Seq<Seq<u8>> {
    colors.map_values(|c: [u8; 3]| c@)
}

/// The last of the first `m` groups that holds pixel `p`.
pub open spec fn last_group_with(groups: Seq<Seq<(usize, usize)>>, m: int, p: (usize, usize)) -> Option<
    int,
>
    decreases m,
{
    if m <= 0 {
        None
    } else if groups[m - 1].contains(p) {
        Some(m - 1)
    } else {
        last_group_with(groups, m - 1, p)
    }
}

/// The last of the first `m` groups holding `p` is group `t` when `t` holds it and no
/// later one of them does.
proof fn lemma_last_group_with_is(groups: Seq<Seq<(usize, usize)>>, m: int, p: (usize, usize), t: int)
    requires
        0 <= t < m <= groups.len(),
        groups[t].contains(p),
        forall|t2: int| t < t2 < m ==> !(#[trigger] groups[t2]).contains(p),
    ensures
        last_group_with(groups, m, p) == Some(t),
    decreases m,
{
    if m - 1 > t {
        lemma_last_group_with_is(groups, m - 1, p, t);
    }
}

/// No group among the first `m` holds `p`: none is the last.
proof fn lemma_last_group_with_none(groups: Seq<Seq<(usize, usize)>>, m: int, p: (usize, usize))
    requires
        m <= groups.len(),
        forall|t: int| 0 <= t < m ==> !(#[trigger] groups[t]).contains(p),
    ensures
        last_group_with(groups, m, p) is None,
    decreases m,
{
    if m > 0 {
        lemma_last_group_with_none(groups, m - 1, p);
    }
}

/// The value a table paints on channel `k` of pixel `(i, j)` when applied group by
/// group: the colour of the last group holding the pixel, or 0 when none does. Only
/// groups that have a colour count.
pub open spec fn painted(
    groups: Seq<Seq<(usize, usize)>>,
    colors: Seq<Seq<u8>>,
    i: usize,
    j: usize,
    k: int,
) -> u8 {
    let m = if groups.len() <= colors.len() {
        groups.len()
    } else {
        colors.len()
    };
    match last_group_with(groups, m as int, (i, j)) {
        Some(t) => colors[t][k],
        None => 0u8,
    }
}

/// The smaller of two lengths: how many groups a table actually applies.
pub open spec fn applied_groups(groups: Seq<Vec<(usize, usize)>>, colors: Seq<[u8; 3]>) -> int {
    if groups.len() <= colors.len() {
        groups.len() as int
    } else {
        colors.len() as int
    }
}

/// One of the first `m` groups holds a pixel.
pub open spec fn some_group_nonempty(groups: Seq<Vec<(usize, usize)>>, m: int) -> bool {
    exists|t: int| 0 <= t < m && #[trigger] groups[t]@.len() > 0
}

/// Paints a black copy of `original_image`'s shape with the table: each pixel of a
/// group gets the group's colour, later groups over earlier ones; pixels in no group
/// stay black. Painting a pixel writes all three channels, so the image needs three
/// channels as soon as one pixel is painted.
pub fn color(hashtable: LUT, original_image: Raster) -> (res: Raster)
    requires
        forall|t: int, q: int|
            0 <= t < applied_groups(hashtable.0@, hashtable.1@) && 0 <= q
                < hashtable.0@[t]@.len() ==> (#[trigger] hashtable.0@[t]@[q]).0 < raster_shape(
                original_image,
            ).0 && hashtable.0@[t]@[q].1 < raster_shape(original_image).1,
        some_group_nonempty(hashtable.0@, applied_groups(hashtable.0@, hashtable.1@))
            ==> raster_shape(original_image).2 == 3,
    ensures
        raster_shape(res) == raster_shape(original_image),
        forall|i: usize, j: usize, k: usize|
            raster_in_bounds(original_image, i as int, j as int, k as int) ==> #[trigger] raster_at(
                res,
                i,
                j,
                k,
            ) == painted(groups_view(hashtable.0@), colors_view(hashtable.1@), i, j, k as int),
        forall|t: int, q: int, k: usize|
            #![trigger raster_at(res, hashtable.0@[t]@[q].0, hashtable.0@[t]@[q].1, k)]
            0 <= t < hashtable.0@.len() && t < hashtable.1@.len() && 0 <= q
                < hashtable.0@[t]@.len() && k < 3 && (forall|t2: int|
                t < t2 < hashtable.0@.len() && t2 < hashtable.1@.len()
                    ==> !(#[trigger] hashtable.0@[t2]@).contains(hashtable.0@[t]@[q]))
                ==> raster_at(res, hashtable.0@[t]@[q].0, hashtable.0@[t]@[q].1, k)
                == hashtable.1@[t]@[k as int],
        forall|i: usize, j: usize, k: usize|
            raster_in_bounds(original_image, i as int, j as int, k as int) && (forall|t: int|
                0 <= t < hashtable.0@.len() && t < hashtable.1@.len() ==> !(
                #[trigger] hashtable.0@[t]@).contains((i, j))) ==> #[trigger] raster_at(
                res,
                i,
                j,
                k,
            ) == 0u8,
{
    let ghost groups0 = hashtable.0@;
    let ghost colors0 = hashtable.1@;
    let (height, width, depth) = original_image.dim();
    let mut image = Raster::zeros(height, width, depth);
    let (groups, colors) = hashtable;
    let ghost gv = groups_view(groups@);
    let ghost cv = colors_view(colors@);
    let n = if groups.len() <= colors.len() {
        groups.len()
    } else {
        colors.len()
    };
    let mut t: usize = 0;
    assert forall|i: usize, j: usize, k: usize|
        i < height && j < width && k < depth implies #[trigger] raster_cells(image)[(i, j, k)]
            == match last_group_with(gv, 0, (i, j)) {
            Some(s) => cv[s][k as int],
            None => 0u8,
        } by {
        assert(raster_at(image, i, j, k) == 0);
    }
    while t < n
        invariant
            t <= n,
            n == applied_groups(groups@, colors@),
            n <= groups@.len(),
            n <= colors@.len(),
            gv == groups_view(groups@),
            cv == colors_view(colors@),
            raster_shape(image) == (height, width, depth),
            forall|g: int, e: int|
                0 <= g < n && 0 <= e < groups@[g]@.len() ==> (#[trigger] groups@[g]@[e]).0
                    < height && groups@[g]@[e].1 < width,
            some_group_nonempty(groups@, n as int) ==> depth == 3,
            forall|i: usize, j: usize, k: usize|
                i < height && j < width && k < depth ==> #[trigger] raster_cells(image)[(i, j, k)]
                    == match last_group_with(gv, t as int, (i, j)) {
                    Some(s) => cv[s][k as int],
                    None => 0u8,
                },
        decreases n - t,
    {
        let group = &groups[t];
        let paint = colors[t];
        assert(gv[t as int] == group@);
        assert(cv[t as int] == paint@);
        if group.len() > 0 {
            assert(groups@[t as int]@.len() > 0);
            assert(some_group_nonempty(groups@, n as int));
        }
        let mut q: usize = 0;
        while q < group.len()
            invariant
                t < n,
                n <= groups@.len(),
                n <= colors@.len(),
                q <= group@.len(),
                group == groups@[t as int],
                group@.len() > 0 ==> depth == 3,
                gv[t as int] == group@,
                cv[t as int] == paint@,
                raster_shape(image) == (height, width, depth),
                forall|e: int| 0 <= e < group@.len() ==> (#[trigger] group@[e]).0
                    < height && group@[e].1 < width,
                forall|i: usize, j: usize, k: usize|
                    i < height && j < width && k < depth ==> #[trigger] raster_cells(image)[(
                        i,
                        j,
                        k,
                    )] == if group@.take(q as int).contains((i, j)) {
                        paint@[k as int]
                    } else {
                        match last_group_with(gv, t as int, (i, j)) {
                            Some(s) => cv[s][k as int],
                            None => 0u8,
                        }
                    },
            decreases group@.len() - q,
        {
            let (py, px) = group[q];
            image.set(py, px, 0, paint[0]);
            image.set(py, px, 1, paint[1]);
            image.set(py, px, 2, paint[2]);
            assert forall|i: usize, j: usize, k: usize|
                i < height && j < width && k < depth implies #[trigger] raster_cells(image)[(
                    i,
                    j,
                    k,
                )] == if group@.take(q + 1).contains((i, j)) {
                    paint@[k as int]
                } else {
                    match last_group_with(gv, t as int, (i, j)) {
                        Some(s) => cv[s][k as int],
                        None => 0u8,
                    }
                } by {
                let prefix = group@.take(q as int);
                let longer = group@.take(q + 1);
                assert(longer =~= prefix.push((py, px)));
                if (i, j) != (py, px) {
                    if longer.contains((i, j)) {
                        let w = choose|w: int| 0 <= w < longer.len() && longer[w] == (i, j);
                        assert(prefix[w] == (i, j));
                    }
                } else {
                    assert(longer[q as int] == (py, px));
                }
            }
            q += 1;
        }
        assert(group@.take(group@.len() as int) =~= group@);
        t += 1;
    }
    proof {
        let m = applied_groups(groups0, colors0);
        assert forall|t: int, q: int, k: usize|
            #![trigger raster_at(image, groups0[t]@[q].0, groups0[t]@[q].1, k)]
            0 <= t < groups0.len() && t < colors0.len() && 0 <= q < groups0[t]@.len() && k < 3
                && (forall|t2: int|
                t < t2 < groups0.len() && t2 < colors0.len() ==> !(
                #[trigger] groups0[t2]@).contains(groups0[t]@[q])) implies raster_at(
            image,
            groups0[t]@[q].0,
            groups0[t]@[q].1,
            k,
        ) == colors0[t]@[k as int] by {
            let p = groups0[t]@[q];
            assert(groups0[t]@.len() > 0);
            assert(some_group_nonempty(groups0, m));
            assert(groups0[t]@.contains(p)) by {
                assert(groups0[t]@[q] == p);
            }
            lemma_last_group_with_is(gv, m, p, t);
            assert(gv[t] == groups0[t]@);
            assert(cv[t] == colors0[t]@);
            assert(raster_in_bounds(original_image, p.0 as int, p.1 as int, k as int));
        }
        assert forall|i: usize, j: usize, k: usize|
            raster_in_bounds(original_image, i as int, j as int, k as int) && (forall|t: int|
                0 <= t < groups0.len() && t < colors0.len() ==> !(
                #[trigger] groups0[t]@).contains((i, j))) implies #[trigger] raster_at(
            image,
            i,
            j,
            k,
        ) == 0u8 by {
            lemma_last_group_with_none(gv, m, (i, j));
        }
    }
    image
}

/// The pixels `(row, column)` of column `x` above row `y` that belong to triangle `t`,
/// top to bottom.
pub open spec fn column_group(owner: Seq<Vec<usize>>, t: usize, x: int, y: int) -> Seq<
    (usize, usize),
>
    decreases y,
{
    if y <= 0 {
        seq![]
    } else {
        let rest = column_group(owner, t, x, y - 1);
        if owner[x]@[y - 1] == t {
            rest.push(((y - 1) as usize, x as usize))
        } else {
            rest
        }
    }
}

/// The pixels of the columns left of `x` (each `height` tall) that belong to triangle
/// `t`, column by column.
pub open spec fn scan_group(owner: Seq<Vec<usize>>, height: int, t: usize, x: int) -> Seq<
    (usize, usize),
>
    decreases x,
{
    if x <= 0 {
        seq![]
    } else {
        scan_group(owner, height, t, x - 1) + column_group(owner, t, x - 1, height)
    }
}

/// The channel of the image that feeds colour channel `c`: a one-channel image feeds
/// all three.
pub open spec fn source_channel(img: Raster, c: int) -> usize {
    if raster_shape(img).2 == 1 {
        0
    } else {
        c as usize
    }
}

/// The sum of colour channel `c` over the pixels `(row, column)`.
pub open spec fn channel_sum(img: Raster, pixels: Seq<(usize, usize)>, c: int) -> int
    decreases pixels.len(),
{
    if pixels.len() == 0 {
        0
    } else {
        channel_sum(img, pixels.drop_last(), c) + raster_at(
            img,
            pixels.last().0,
            pixels.last().1,
            source_channel(img, c),
        )
    }
}

/// The mean of colour channel `c` over the pixels, rounded down; 0 for no pixels.
pub open spec fn group_average(img: Raster, pixels: Seq<(usize, usize)>, c: int) -> u8 {
    if pixels.len() == 0 {
        0u8
    } else {
        (channel_sum(img, pixels, c) / (pixels.len() as int)) as u8
    }
}

/// The mean colour of the pixels.
pub open spec fn average_color(img: Raster, pixels: Seq<(usize, usize)>) -> Seq<u8> {
    seq![group_average(img, pixels, 0), group_average(img, pixels, 1), group_average(img, pixels, 2)]
}

/// Channel `c` of some pixel among `pixels` is at most `v`, and that of some pixel is at
/// least `v`; a one-channel image feeds every colour channel from its only channel.
pub open spec fn between_pixel_values(img: Raster, pixels: Seq<(usize, usize)>, c: int, v: u8) -> bool {
    &&& exists|q: int|
        0 <= q < pixels.len() && raster_at(
            img,
            (#[trigger] pixels[q]).0,
            pixels[q].1,
            if raster_shape(img).2 == 1 {
                0usize
            } else {
                c as usize
            },
        ) <= v
    &&& exists|q: int|
        0 <= q < pixels.len() && raster_at(
            img,
            (#[trigger] pixels[q]).0,
            pixels[q].1,
            if raster_shape(img).2 == 1 {
                0usize
            } else {
                c as usize
            },
        ) >= v
}

/// Groups the pixels of a `width` by `height` image by the triangle that owns them
/// (`owner[x][y]` for column `x`, row `y`), scanning column by column, and gives each
/// triangle the mean colour of its pixels in `image`; a triangle without pixels gets
/// black.
#[verifier::spinoff_prover]
pub fn color_lookup_table(
    width: usize,
    height: usize,
    n_triangles: usize,
    owner: &Vec<Vec<usize>>,
    image: &Raster,
) -> (res: LUT)
    requires
        owner@.len() == width,
        forall|x: int| 0 <= x < width ==> (#[trigger] owner@[x])@.len() == height,
        forall|x: int, y: int|
            0 <= x < width && 0 <= y < height ==> #[trigger] owner@[x]@[y] < n_triangles,
        width > 0 && height > 0 ==> {
            &&& height <= raster_shape(*image).0
            &&& width <= raster_shape(*image).1
            &&& (raster_shape(*image).2 == 3 || raster_shape(*image).2 == 1)
        },
        width * height * 255 <= u64::MAX,
    ensures
        res.0@.len() == n_triangles,
        res.1@.len() == n_triangles,
        forall|t: int|
            0 <= t < n_triangles ==> (#[trigger] res.0@[t])@ == scan_group(
                owner@,
                height as int,
                t as usize,
                width as int,
            ),
        forall|t: int|
            0 <= t < n_triangles ==> (#[trigger] res.1@[t])@ == average_color(
                *image,
                scan_group(owner@, height as int, t as usize, width as int),
            ),
        forall|t: int, p: (usize, usize)|
            0 <= t < n_triangles ==> (#[trigger] res.0@[t]@.contains(p) <==> (p.1 < width && p.0
                < height && owner@[p.1 as int]@[p.0 as int] == t)),
        forall|t: int, q1: int, q2: int|
            #![trigger res.0@[t]@[q1], res.0@[t]@[q2]]
            0 <= t < n_triangles && 0 <= q1 < q2 < res.0@[t]@.len() ==> res.0@[t]@[q1].1
                < res.0@[t]@[q2].1 || (res.0@[t]@[q1].1 == res.0@[t]@[q2].1 && res.0@[t]@[q1].0
                < res.0@[t]@[q2].0),
        forall|t: int, c: int|
            0 <= t < n_triangles && 0 <= c < 3 && res.0@[t]@.len() == 0 ==> #[trigger] res.1@[t]@[c]
                == 0u8,
        forall|t: int, c: int|
            0 <= t < n_triangles && 0 <= c < 3 && res.0@[t]@.len() > 0
                ==> #[trigger] between_pixel_values(*image, res.0@[t]@, c, res.1@[t]@[c]),
{
    let mut groups: Vec<Vec<(usize, usize)>> = Vec::new();
    let mut sums: Vec<(u64, u64, u64)> = Vec::new();
    let mut t: usize = 0;
    while t < n_triangles
        invariant
            t <= n_triangles,
            groups@.len() == t,
            sums@.len() == t,
            forall|s: int| 0 <= s < t ==> (#[trigger] groups@[s])@ == Seq::<(usize, usize)>::empty(),
            forall|s: int| 0 <= s < t ==> #[trigger] sums@[s] == (0u64, 0u64, 0u64),
        decreases n_triangles - t,
    {
        groups.push(Vec::new());
        sums.push((0, 0, 0));
        t += 1;
    }
    let (_, _, depth) = image.dim();
    let c1: usize = if depth == 1 {
        0
    } else {
        1
    };
    let c2: usize = if depth == 1 {
        0
    } else {
        2
    };
    assert(c1 == source_channel(*image, 1) && c2 == source_channel(*image, 2));
    assert(0 == source_channel(*image, 0));
    let mut x: usize = 0;
    while x < width
        invariant
            x <= width,
            owner@.len() == width,
            forall|x2: int| 0 <= x2 < width ==> (#[trigger] owner@[x2])@.len() == height,
            forall|x2: int, y2: int|
                0 <= x2 < width && 0 <= y2 < height ==> #[trigger] owner@[x2]@[y2] < n_triangles,
            width > 0 && height > 0 ==> {
                &&& height <= raster_shape(*image).0
                &&& width <= raster_shape(*image).1
                &&& (raster_shape(*image).2 == 3 || raster_shape(*image).2 == 1)
            },
            depth == raster_shape(*image).2,
            c1 == source_channel(*image, 1),
            c2 == source_channel(*image, 2),
            0 == source_channel(*image, 0),
            width * height * 255 <= u64::MAX,
            groups@.len() == n_triangles,
            sums@.len() == n_triangles,
            forall|s: int|
                0 <= s < n_triangles ==> (#[trigger] groups@[s])@ == scan_group(
                    owner@,
                    height as int,
                    s as usize,
                    x as int,
                ),
            forall|s: int|
                0 <= s < n_triangles ==> {
                    &&& (#[trigger] sums@[s]).0 == channel_sum(*image, groups@[s]@, 0)
                    &&& sums@[s].1 == channel_sum(*image, groups@[s]@, 1)
                    &&& sums@[s].2 == channel_sum(*image, groups@[s]@, 2)
                    &&& sums@[s].0 <= 255 * groups@[s]@.len()
                    &&& sums@[s].1 <= 255 * groups@[s]@.len()
                    &&& sums@[s].2 <= 255 * groups@[s]@.len()
                    &&& groups@[s]@.len() <= x * height
                },
        decreases width - x,
    {
        let mut y: usize = 0;
        while y < height
            invariant
                x < width,
                y <= height,
                owner@.len() == width,
                forall|x2: int| 0 <= x2 < width ==> (#[trigger] owner@[x2])@.len() == height,
                forall|x2: int, y2: int|
                    0 <= x2 < width && 0 <= y2 < height ==> #[trigger] owner@[x2]@[y2]
                        < n_triangles,
                width > 0 && height > 0 ==> {
                    &&& height <= raster_shape(*image).0
                    &&& width <= raster_shape(*image).1
                    &&& (raster_shape(*image).2 == 3 || raster_shape(*image).2 == 1)
                },
                depth == raster_shape(*image).2,
                c1 == source_channel(*image, 1),
                c2 == source_channel(*image, 2),
                0 == source_channel(*image, 0),
                width * height * 255 <= u64::MAX,
                groups@.len() == n_triangles,
                sums@.len() == n_triangles,
                forall|s: int|
                    0 <= s < n_triangles ==> (#[trigger] groups@[s])@ == scan_group(
                        owner@,
                        height as int,
                        s as usize,
                        x as int,
                    ) + column_group(owner@, s as usize, x as int, y as int),
                forall|s: int|
                    0 <= s < n_triangles ==> {
                        &&& (#[trigger] sums@[s]).0 == channel_sum(*image, groups@[s]@, 0)
                        &&& sums@[s].1 == channel_sum(*image, groups@[s]@, 1)
                        &&& sums@[s].2 == channel_sum(*image, groups@[s]@, 2)
                        &&& sums@[s].0 <= 255 * groups@[s]@.len()
                        &&& sums@[s].1 <= 255 * groups@[s]@.len()
                        &&& sums@[s].2 <= 255 * groups@[s]@.len()
                        &&& groups@[s]@.len() <= x * height + y
                    },
            decreases height - y,
        {
            let i = owner[x][y];
            assert(owner@[x as int]@[y as int] == i);
            let v0 = image.get(y, x, 0) as u64;
            let v1 = image.get(y, x, c1) as u64;
            let v2 = image.get(y, x, c2) as u64;
            let (s0, s1, s2) = sums[i];
            let ghost old_groups = groups@;
            let ghost old_sums = sums@;
            assert(x * height + y + 1 <= width * height) by (nonlinear_arith)
                requires
                    x < width,
                    y < height,
            ;
            assert(255 * (x * height + y + 1) <= 255 * (width * height)) by (nonlinear_arith)
                requires
                    x * height + y + 1 <= width * height,
            ;
            assert(255 * (width * height) == width * height * 255) by (nonlinear_arith);
            sums.set(i, (s0 + v0, s1 + v1, s2 + v2));
            groups[i].push((y, x));
            proof {
                let p = (y, x);
                let gi = old_groups[i as int]@;
                assert(groups@[i as int]@ == gi.push(p));
                assert(gi.push(p).drop_last() =~= gi);
                assert(gi.push(p).last() == p);
                assert forall|s: int| 0 <= s < n_triangles implies (#[trigger] groups@[s])@
                    == scan_group(owner@, height as int, s as usize, x as int) + column_group(
                    owner@,
                    s as usize,
                    x as int,
                    y + 1,
                ) by {
                    let sc = scan_group(owner@, height as int, s as usize, x as int);
                    let co = column_group(owner@, s as usize, x as int, y as int);
                    if s == i as int {
                        assert((sc + co).push(p) =~= sc + co.push(p));
                    } else {
                        assert(groups@[s] == old_groups[s]);
                    }
                }
            }
            y += 1;
        }
        proof {
            assert forall|s: int| 0 <= s < n_triangles implies (#[trigger] groups@[s])@
                == scan_group(owner@, height as int, s as usize, x + 1) by {
            }
            assert(x * height + height == (x + 1) * height) by (nonlinear_arith);
        }
        x += 1;
    }
    let mut colors: Vec<[u8; 3]> = Vec::new();
    let mut t: usize = 0;
    while t < n_triangles
        invariant
            t <= n_triangles,
            colors@.len() == t,
            groups@.len() == n_triangles,
            sums@.len() == n_triangles,
            forall|s: int|
                0 <= s < n_triangles ==> (#[trigger] groups@[s])@ == scan_group(
                    owner@,
                    height as int,
                    s as usize,
                    width as int,
                ),
            forall|s: int|
                0 <= s < n_triangles ==> {
                    &&& (#[trigger] sums@[s]).0 == channel_sum(*image, groups@[s]@, 0)
                    &&& sums@[s].1 == channel_sum(*image, groups@[s]@, 1)
                    &&& sums@[s].2 == channel_sum(*image, groups@[s]@, 2)
                    &&& sums@[s].0 <= 255 * groups@[s]@.len()
                    &&& sums@[s].1 <= 255 * groups@[s]@.len()
                    &&& sums@[s].2 <= 255 * groups@[s]@.len()
                },
            forall|s: int|
                0 <= s < t ==> (#[trigger] colors@[s])@ == average_color(*image, groups@[s]@),
        decreases n_triangles - t,
    {
        let len = groups[t].len();
        let (s0, s1, s2) = sums[t];
        if len != 0 {
            let l = len as u64;
            proof {
                lemma_mean_fits(s0 as int, l as int);
                lemma_mean_fits(s1 as int, l as int);
                lemma_mean_fits(s2 as int, l as int);
            }
            let paint: [u8; 3] = [(s0 / l) as u8, (s1 / l) as u8, (s2 / l) as u8];
            colors.push(paint);
        } else {
            let paint: [u8; 3] = [0, 0, 0];
            colors.push(paint);
        }
        proof {
            assert(colors@[t as int]@ =~= average_color(*image, groups@[t as int]@));
        }
        t += 1;
    }
    let res = (groups, colors);
    proof {
        lemma_lookup_table_layout(owner@, width, height, n_triangles, *image, res);
    }
    res
}

/// What the groups and colours of a lookup table say directly of the ownership grid and
/// the image: a group holds exactly its triangle's pixels, in scan order, and a colour
/// channel lies between the values of two of the group's pixels (black for no pixels).
proof fn lemma_lookup_table_layout(
    owner: Seq<Vec<usize>>,
    width: usize,
    height: usize,
    n_triangles: usize,
    image: Raster,
    res: LUT,
)
    requires
        res.0@.len() == n_triangles,
        res.1@.len() == n_triangles,
        forall|t: int|
            0 <= t < n_triangles ==> (#[trigger] res.0@[t])@ == scan_group(
                owner,
                height as int,
                t as usize,
                width as int,
            ),
        forall|t: int|
            0 <= t < n_triangles ==> (#[trigger] res.1@[t])@ == average_color(
                image,
                scan_group(owner, height as int, t as usize, width as int),
            ),
    ensures
        forall|t: int, p: (usize, usize)|
            0 <= t < n_triangles ==> (#[trigger] res.0@[t]@.contains(p) <==> (p.1 < width && p.0
                < height && owner[p.1 as int]@[p.0 as int] == t)),
        forall|t: int, q1: int, q2: int|
            #![trigger res.0@[t]@[q1], res.0@[t]@[q2]]
            0 <= t < n_triangles && 0 <= q1 < q2 < res.0@[t]@.len() ==> res.0@[t]@[q1].1
                < res.0@[t]@[q2].1 || (res.0@[t]@[q1].1 == res.0@[t]@[q2].1 && res.0@[t]@[q1].0
                < res.0@[t]@[q2].0),
        forall|t: int, c: int|
            0 <= t < n_triangles && 0 <= c < 3 && res.0@[t]@.len() == 0 ==> #[trigger] res.1@[t]@[c]
                == 0u8,
        forall|t: int, c: int|
            0 <= t < n_triangles && 0 <= c < 3 && res.0@[t]@.len() > 0
                ==> #[trigger] between_pixel_values(image, res.0@[t]@, c, res.1@[t]@[c]),
{
    assert forall|t: int, p: (usize, usize)|
        0 <= t < n_triangles implies (#[trigger] res.0@[t]@.contains(p) <==> (p.1 < width && p.0
            < height && owner[p.1 as int]@[p.0 as int] == t)) by {
        lemma_scan_group_contains(owner, height as int, t as usize, width as int, p);
    }
    assert forall|t: int, q1: int, q2: int|
        #![trigger res.0@[t]@[q1], res.0@[t]@[q2]]
        0 <= t < n_triangles && 0 <= q1 < q2 < res.0@[t]@.len() implies scan_before(
        res.0@[t]@[q1],
        res.0@[t]@[q2],
    ) by {
        lemma_scan_group_sorted(owner, height as int, t as usize, width as int);
    }
    assert forall|t: int, c: int|
        0 <= t < n_triangles && 0 <= c < 3 && res.0@[t]@.len() > 0 implies #[trigger] between_pixel_values(
        image,
        res.0@[t]@,
        c,
        res.1@[t]@[c],
    ) by {
        let g = res.0@[t]@;
        lemma_mean_between(image, g, c);
        let qa = choose|q: int|
            0 <= q < g.len() && #[trigger] channel_value(image, g[q], c) <= group_average(
                image,
                g,
                c,
            );
        let qb = choose|q: int|
            0 <= q < g.len() && #[trigger] channel_value(image, g[q], c) >= group_average(
                image,
                g,
                c,
            );
        assert(res.1@[t]@ == average_color(image, g));
        assert(res.1@[t]@[c] == group_average(image, g, c));
        let ch: usize = if raster_shape(image).2 == 1 {
            0usize
        } else {
            c as usize
        };
        assert(ch == source_channel(image, c));
        assert(raster_at(image, res.0@[t]@[qa].0, res.0@[t]@[qa].1, ch) <= res.1@[t]@[c]);
        assert(raster_at(image, res.0@[t]@[qb].0, res.0@[t]@[qb].1, ch) >= res.1@[t]@[c]);
    }
}

/// `p` comes before `q` in a column-by-column scan.
spec fn scan_before(p: (usize, usize), q: (usize, usize)) -> bool {
    p.1 < q.1 || (p.1 == q.1 && p.0 < q.0)
}

/// The value that feeds colour channel `c` at pixel `p`.
spec fn channel_value(img: Raster, p: (usize, usize), c: int) -> u8 {
    raster_at(img, p.0, p.1, source_channel(img, c))
}

/// A column's group lies in that column, above the row bound, top to bottom.
proof fn lemma_column_group_sorted(owner: Seq<Vec<usize>>, t: usize, x: int, y: int)
    requires
        0 <= x <= usize::MAX,
        0 <= y <= usize::MAX,
    ensures
        forall|q: int|
            0 <= q < column_group(owner, t, x, y).len() ==> (#[trigger] column_group(
                owner,
                t,
                x,
                y,
            )[q]).1 == x && column_group(owner, t, x, y)[q].0 < y,
        forall|q1: int, q2: int|
            0 <= q1 < q2 < column_group(owner, t, x, y).len() ==> (#[trigger] column_group(
                owner,
                t,
                x,
                y,
            )[q1]).0 < (#[trigger] column_group(owner, t, x, y)[q2]).0,
    decreases y,
{
    if y > 0 {
        lemma_column_group_sorted(owner, t, x, y - 1);
        let rest = column_group(owner, t, x, y - 1);
        if owner[x]@[y - 1] == t {
            let g = rest.push(((y - 1) as usize, x as usize));
            assert(column_group(owner, t, x, y) == g);
            assert forall|q: int| 0 <= q < g.len() implies (#[trigger] g[q]).1 == x && g[q].0 < y by {
                if q < rest.len() {
                    assert(g[q] == rest[q]);
                }
            }
            assert forall|q1: int, q2: int| 0 <= q1 < q2 < g.len() implies (#[trigger] g[q1]).0 < (
            #[trigger] g[q2]).0 by {
                assert(g[q1] == rest[q1]);
                if q2 < rest.len() {
                    assert(g[q2] == rest[q2]);
                }
            }
        }
    }
}

/// A triangle's group is in scan order: column by column, top to bottom.
proof fn lemma_scan_group_sorted(owner: Seq<Vec<usize>>, height: int, t: usize, x: int)
    requires
        0 <= x <= usize::MAX,
        0 <= height <= usize::MAX,
    ensures
        forall|q1: int, q2: int|
            0 <= q1 < q2 < scan_group(owner, height, t, x).len() ==> scan_before(
                #[trigger] scan_group(owner, height, t, x)[q1],
                #[trigger] scan_group(owner, height, t, x)[q2],
            ),
    decreases x,
{
    if x > 0 {
        lemma_scan_group_sorted(owner, height, t, x - 1);
        lemma_column_group_sorted(owner, t, x - 1, height);
        let a = scan_group(owner, height, t, x - 1);
        let b = column_group(owner, t, x - 1, height);
        let g = a + b;
        assert(scan_group(owner, height, t, x) == g);
        assert forall|q1: int, q2: int| 0 <= q1 < q2 < g.len() implies scan_before(
            #[trigger] g[q1],
            #[trigger] g[q2],
        ) by {
            if q2 < a.len() {
                assert(g[q1] == a[q1] && g[q2] == a[q2]);
            } else if q1 >= a.len() {
                assert(g[q1] == b[q1 - a.len()] && g[q2] == b[q2 - a.len()]);
            } else {
                assert(g[q1] == a[q1] && g[q2] == b[q2 - a.len()]);
                assert(a.contains(a[q1]));
                lemma_scan_group_contains(owner, height, t, x - 1, a[q1]);
            }
        }
    }
}

/// Some pixel's value times the count is at most the sum, and some pixel's is at least.
proof fn lemma_channel_sum_bounds(img: Raster, pixels: Seq<(usize, usize)>, c: int)
    requires
        pixels.len() > 0,
    ensures
        exists|q: int|
            0 <= q < pixels.len() && #[trigger] channel_value(img, pixels[q], c) * pixels.len()
                <= channel_sum(img, pixels, c),
        exists|q: int|
            0 <= q < pixels.len() && #[trigger] channel_value(img, pixels[q], c) * pixels.len()
                >= channel_sum(img, pixels, c),
    decreases pixels.len(),
{
    let l = pixels.len() as int;
    let last = pixels.last();
    let v = channel_value(img, last, c) as int;
    let rest = pixels.drop_last();
    assert(pixels[l - 1] == last);
    if l == 1 {
        assert(channel_sum(img, rest, c) == 0);
        assert(channel_sum(img, pixels, c) == v);
        assert(channel_value(img, pixels[0], c) == v);
        assert(v * l == v) by (nonlinear_arith)
            requires
                l == 1,
        ;
        assert(channel_value(img, pixels[0], c) * pixels.len() <= channel_sum(img, pixels, c));
        assert(channel_value(img, pixels[0], c) * pixels.len() >= channel_sum(img, pixels, c));
    } else {
        lemma_channel_sum_bounds(img, rest, c);
        let sr = channel_sum(img, rest, c);
        assert(channel_sum(img, pixels, c) == sr + v);
        let qa = choose|q: int|
            0 <= q < rest.len() && #[trigger] channel_value(img, rest[q], c) * rest.len() <= sr;
        let qb = choose|q: int|
            0 <= q < rest.len() && #[trigger] channel_value(img, rest[q], c) * rest.len() >= sr;
        let a = channel_value(img, rest[qa], c) as int;
        let b = channel_value(img, rest[qb], c) as int;
        assert(rest[qa] == pixels[qa] && rest[qb] == pixels[qb]);
        if v < a {
            assert(v * l <= sr + v) by (nonlinear_arith)
                requires
                    v < a,
                    a * (l - 1) <= sr,
                    l > 1,
            ;
            assert(channel_value(img, pixels[l - 1], c) * pixels.len() <= channel_sum(img, pixels, c));
        } else {
            assert(a * l <= sr + v) by (nonlinear_arith)
                requires
                    a <= v,
                    a * (l - 1) <= sr,
            ;
            assert(channel_value(img, pixels[qa], c) * pixels.len() <= channel_sum(img, pixels, c));
        }
        if v > b {
            assert(v * l >= sr + v) by (nonlinear_arith)
                requires
                    v > b,
                    b * (l - 1) >= sr,
                    l > 1,
            ;
            assert(channel_value(img, pixels[l - 1], c) * pixels.len() >= channel_sum(img, pixels, c));
        } else {
            assert(b * l >= sr + v) by (nonlinear_arith)
                requires
                    b >= v,
                    b * (l - 1) >= sr,
            ;
            assert(channel_value(img, pixels[qb], c) * pixels.len() >= channel_sum(img, pixels, c));
        }
    }
}

/// The rounded-down mean of a channel lies between the channel values of two of the
/// pixels.
proof fn lemma_mean_between(img: Raster, pixels: Seq<(usize, usize)>, c: int)
    requires
        pixels.len() > 0,
    ensures
        exists|q: int|
            0 <= q < pixels.len() && #[trigger] channel_value(img, pixels[q], c) <= group_average(
                img,
                pixels,
                c,
            ),
        exists|q: int|
            0 <= q < pixels.len() && #[trigger] channel_value(img, pixels[q], c) >= group_average(
                img,
                pixels,
                c,
            ),
{
    lemma_channel_sum_bounds(img, pixels, c);
    let l = pixels.len() as int;
    let sum = channel_sum(img, pixels, c);
    let qa = choose|q: int| 0 <= q < pixels.len() && #[trigger] channel_value(img, pixels[q], c) * pixels.len() <= sum;
    let qb = choose|q: int| 0 <= q < pixels.len() && #[trigger] channel_value(img, pixels[q], c) * pixels.len() >= sum;
    let a = channel_value(img, pixels[qa], c) as int;
    let b = channel_value(img, pixels[qb], c) as int;
    lemma_div_is_ordered(a * l, sum, l);
    lemma_div_is_ordered(sum, b * l, l);
    lemma_div_multiples_vanish(a, l);
    lemma_div_multiples_vanish(b, l);
    assert(l * a == a * l && l * b == b * l) by (nonlinear_arith);
    assert(0 <= b <= 255);
    lemma_div_pos_is_pos(sum, l);
    assert(group_average(img, pixels, c) == sum / l);
}

/// A sum of `l` bytes, divided by `l`, is a byte.
proof fn lemma_mean_fits(sum: int, l: int)
    requires
        0 < l,
        0 <= sum <= 255 * l,
    ensures
        0 <= sum / l <= 255,
{
    lemma_div_pos_is_pos(sum, l);
    lemma_div_is_ordered(sum, 255 * l, l);
    lemma_div_by_multiple(255, l);
}

/// A pixel lies in a column's group exactly when it is in that column, above the row
/// bound, and owned by the triangle.
proof fn lemma_column_group_contains(
    owner: Seq<Vec<usize>>,
    t: usize,
    x: int,
    y: int,
    p: (usize, usize),
)
    requires
        0 <= x <= usize::MAX,
        0 <= y <= usize::MAX,
    ensures
        column_group(owner, t, x, y).contains(p) <==> (p.1 == x && p.0 < y && owner[x]@[p.0 as int]
            == t),
    decreases y,
{
    if y > 0 {
        lemma_column_group_contains(owner, t, x, y - 1, p);
        let rest = column_group(owner, t, x, y - 1);
        let q = ((y - 1) as usize, x as usize);
        if owner[x]@[y - 1] == t {
            assert(rest.push(q)[rest.len() as int] == q);
            if rest.push(q).contains(p) && p != q {
                let w = choose|w: int| 0 <= w < rest.push(q).len() && rest.push(q)[w] == p;
                assert(rest[w] == p);
            }
            if rest.contains(p) {
                let w = choose|w: int| 0 <= w < rest.len() && rest[w] == p;
                assert(rest.push(q)[w] == p);
            }
        }
    }
}

/// A pixel lies in a triangle's group exactly when it was scanned and the triangle
/// owns it.
proof fn lemma_scan_group_contains(
    owner: Seq<Vec<usize>>,
    height: int,
    t: usize,
    x: int,
    p: (usize, usize),
)
    requires
        0 <= x <= usize::MAX,
        0 <= height <= usize::MAX,
    ensures
        scan_group(owner, height, t, x).contains(p) <==> (p.1 < x && p.0 < height
            && owner[p.1 as int]@[p.0 as int] == t),
    decreases x,
{
    if x > 0 {
        lemma_scan_group_contains(owner, height, t, x - 1, p);
        lemma_column_group_contains(owner, t, x - 1, height, p);
        let a = scan_group(owner, height, t, x - 1);
        let b = column_group(owner, t, x - 1, height);
        if (a + b).contains(p) {
            let w = choose|w: int| 0 <= w < (a + b).len() && (a + b)[w] == p;
            if w < a.len() {
                assert(a[w] == p);
            } else {
                assert(b[w - a.len()] == p);
            }
        }
        if a.contains(p) {
            let w = choose|w: int| 0 <= w < a.len() && a[w] == p;
            assert((a + b)[w] == p);
        }
        if b.contains(p) {
            let w = choose|w: int| 0 <= w < b.len() && b[w] == p;
            assert((a + b)[a.len() + w] == p);
        }
    }
}

/// Among the first `m` groups of a lookup table, the last one holding a scanned pixel
/// is the pixel's owner, if the owner is among them.
proof fn lemma_last_group_is_owner(
    groups: Seq<Seq<(usize, usize)>>,
    owner: Seq<Vec<usize>>,
    width: int,
    height: int,
    m: int,
    p: (usize, usize),
)
    requires
        0 <= width <= usize::MAX,
        0 <= height <= usize::MAX,
        0 <= m <= groups.len(),
        groups.len() <= usize::MAX,
        forall|t: int|
            0 <= t < groups.len() ==> #[trigger] groups[t] == scan_group(
                owner,
                height,
                t as usize,
                width,
            ),
    ensures
        last_group_with(groups, m, p) == if p.1 < width && p.0 < height && owner[p.1 as int]@[p.0 as int]
            < m {
            Some(owner[p.1 as int]@[p.0 as int] as int)
        } else {
            None
        },
    decreases m,
{
    if m > 0 {
        lemma_last_group_is_owner(groups, owner, width, height, m - 1, p);
        lemma_scan_group_contains(owner, height, (m - 1) as usize, width, p);
        assert(groups[m - 1] == scan_group(owner, height, (m - 1) as usize, width));
    }
}

/// Painting an image with the lookup table of a triangle ownership grid gives every
/// scanned pixel the mean colour of its triangle, and leaves every other pixel black.
pub proof fn lemma_lookup_table_paints_triangle_means(
    table: LUT,
    owner: Seq<Vec<usize>>,
    image: Raster,
    width: usize,
    height: usize,
    n_triangles: usize,
    i: usize,
    j: usize,
    k: int,
)
    requires
        owner.len() == width,
        forall|x: int| 0 <= x < width ==> (#[trigger] owner[x])@.len() == height,
        forall|x: int, y: int|
            0 <= x < width && 0 <= y < height ==> #[trigger] owner[x]@[y] < n_triangles,
        0 <= k < 3,
        table.0@.len() == n_triangles,
        table.1@.len() == n_triangles,
        forall|t: int|
            0 <= t < n_triangles ==> (#[trigger] table.0@[t])@ == scan_group(
                owner,
                height as int,
                t as usize,
                width as int,
            ),
        forall|t: int|
            0 <= t < n_triangles ==> (#[trigger] table.1@[t])@ == average_color(
                image,
                scan_group(owner, height as int, t as usize, width as int),
            ),
    ensures
        painted(groups_view(table.0@), colors_view(table.1@), i, j, k) == if j < width && i
            < height {
            average_color(
                image,
                scan_group(owner, height as int, owner[j as int]@[i as int], width as int),
            )[k]
        } else {
            0u8
        },
{
    let gv = groups_view(table.0@);
    let cv = colors_view(table.1@);
    assert forall|t: int| 0 <= t < gv.len() implies #[trigger] gv[t] == scan_group(
        owner,
        height as int,
        t as usize,
        width as int,
    ) by {
        assert(gv[t] == table.0@[t]@);
    }
    lemma_last_group_is_owner(gv, owner, width as int, height as int, n_triangles as int, (i, j));
    if j < width && i < height {
        let t = owner[j as int]@[i as int] as int;
        assert(cv[t] == table.1@[t]@);
    }
}

/// A row-major position lies inside the array and gives back its coordinates.
proof fn lemma_flat3_unflat3(h: int, w: int, d: int, i: int, j: int, k: int)
    requires
        0 <= i < h,
        0 <= j < w,
        0 <= k < d,
        i <= usize::MAX,
        j <= usize::MAX,
        k <= usize::MAX,
    ensures
        0 <= flat3(w, d, i, j, k) < h * w * d,
        unflat3(w, d, flat3(w, d, i, j, k)) == (i as usize, j as usize, k as usize),
{
    let q = i * w + j;
    let n = flat3(w, d, i, j, k);
    assert(0 <= q) by (nonlinear_arith)
        requires
            0 <= i,
            0 <= j,
            0 < w,
            q == i * w + j,
    ;
    assert((i + 1) * w <= h * w) by (nonlinear_arith)
        requires
            i + 1 <= h,
            0 < w,
    ;
    assert((i + 1) * w == i * w + w) by (nonlinear_arith);
    assert(0 <= n < h * w * d) by (nonlinear_arith)
        requires
            0 <= q < h * w,
            0 <= k < d,
            n == q * d + k,
    ;
    lemma_fundamental_div_mod_converse(n, d, q, k);
    lemma_fundamental_div_mod_converse(q, w, i, j);
    lemma_div_denominator(n, d, w);
    assert(d * w == w * d) by (nonlinear_arith);
}

/// Converting a raster with three channels and sides up to `u32::MAX` into the parts
/// of an RGB image (`array_to_image`) and back (`image_to_array`) gives the raster
/// again: `back` is any raster that `image_to_array` may return on those parts.
pub proof fn lemma_array_image_roundtrip(r: Raster, back: Raster)
    requires
        raster_shape(r).0 <= u32::MAX,
        raster_shape(r).1 <= u32::MAX,
        raster_shape(r).2 == 3,
        raster_shape(back) == (
            raster_shape(r).0 as u32 as usize,
            raster_shape(r).1 as u32 as usize,
            3usize,
        ),
        forall|i: usize, j: usize, k: usize|
            i < raster_shape(r).0 as u32 && j < raster_shape(r).1 as u32 && k < 3
                ==> #[trigger] raster_at(back, i, j, k) == raw_rgb_at(
                raster_row_major(r),
                raster_shape(r).1 as u32 as int,
                i as int,
                j as int,
                k as int,
            ),
    ensures
        raster_shape(back) == raster_shape(r),
        forall|i: usize, j: usize, k: usize|
            raster_in_bounds(r, i as int, j as int, k as int) ==> #[trigger] raster_at(back, i, j, k)
                == raster_at(r, i, j, k),
{
    let (h, w, d) = raster_shape(r);
    assert(h as u32 as usize == h && w as u32 as usize == w);
    assert forall|i: usize, j: usize, k: usize|
        raster_in_bounds(r, i as int, j as int, k as int) implies #[trigger] raster_at(back, i, j, k)
            == raster_at(r, i, j, k) by {
        lemma_flat3_unflat3(h as int, w as int, 3, i as int, j as int, k as int);
        let n = flat3(w as int, 3, i as int, j as int, k as int);
        assert(raster_row_major(r)[n] == raster_cells(r)[unflat3(w as int, 3, n)]);
    }
}

/// A sum of one value over the pixels is the value times their number.
proof fn lemma_channel_sum_constant(img: Raster, pixels: Seq<(usize, usize)>, c: int, a: u8)
    requires
        forall|q: int|
            0 <= q < pixels.len() ==> #[trigger] raster_at(
                img,
                pixels[q].0,
                pixels[q].1,
                source_channel(img, c),
            ) == a,
    ensures
        channel_sum(img, pixels, c) == pixels.len() * a,
    decreases pixels.len(),
{
    if pixels.len() > 0 {
        let rest = pixels.drop_last();
        assert forall|q: int| 0 <= q < rest.len() implies #[trigger] raster_at(
            img,
            rest[q].0,
            rest[q].1,
            source_channel(img, c),
        ) == a by {
            assert(rest[q] == pixels[q]);
        }
        lemma_channel_sum_constant(img, rest, c, a);
        assert(pixels.last() == pixels[pixels.len() - 1]);
        assert(rest.len() * a + a == pixels.len() * a) by (nonlinear_arith)
            requires
                rest.len() + 1 == pixels.len(),
        ;
    }
}

/// Building the lookup table of an ownership grid again, from the image that its table
/// painted, gives the same groups and the same colours: each group is already painted
/// in its mean colour. `table` is what `color_lookup_table` returns on `image`,
/// `painted_image` what `color` returns on `table` and `image`, and `table2` what
/// `color_lookup_table` returns on `painted_image`.
#[verifier::spinoff_prover]
pub proof fn lemma_lookup_table_repaint_is_stable(
    owner: Seq<Vec<usize>>,
    width: usize,
    height: usize,
    n_triangles: usize,
    image: Raster,
    table: LUT,
    painted_image: Raster,
    table2: LUT,
)
    requires
        owner.len() == width,
        forall|x: int| 0 <= x < width ==> (#[trigger] owner[x])@.len() == height,
        forall|x: int, y: int|
            0 <= x < width && 0 <= y < height ==> #[trigger] owner[x]@[y] < n_triangles,
        height <= raster_shape(image).0,
        width <= raster_shape(image).1,
        raster_shape(image).2 == 3,
        table.0@.len() == n_triangles,
        table.1@.len() == n_triangles,
        forall|t: int|
            0 <= t < n_triangles ==> (#[trigger] table.0@[t])@ == scan_group(
                owner,
                height as int,
                t as usize,
                width as int,
            ),
        forall|t: int|
            0 <= t < n_triangles ==> (#[trigger] table.1@[t])@ == average_color(
                image,
                scan_group(owner, height as int, t as usize, width as int),
            ),
        raster_shape(painted_image) == raster_shape(image),
        forall|i: usize, j: usize, k: usize|
            raster_in_bounds(image, i as int, j as int, k as int) ==> #[trigger] raster_at(
                painted_image,
                i,
                j,
                k,
            ) == painted(groups_view(table.0@), colors_view(table.1@), i, j, k as int),
        table2.0@.len() == n_triangles,
        table2.1@.len() == n_triangles,
        forall|t: int|
            0 <= t < n_triangles ==> (#[trigger] table2.0@[t])@ == scan_group(
                owner,
                height as int,
                t as usize,
                width as int,
            ),
        forall|t: int|
            0 <= t < n_triangles ==> (#[trigger] table2.1@[t])@ == average_color(
                painted_image,
                scan_group(owner, height as int, t as usize, width as int),
            ),
    ensures
        forall|t: int|
            0 <= t < n_triangles ==> (#[trigger] table2.0@[t])@ =~= table.0@[t]@ && table2.1@[t]@
                =~= table.1@[t]@,
{
    assert forall|t: int| 0 <= t < n_triangles implies (#[trigger] table2.0@[t])@ =~= table.0@[t]@
        && table2.1@[t]@ =~= table.1@[t]@ by {
        let g = scan_group(owner, height as int, t as usize, width as int);
        let avg = average_color(image, g);
        assert forall|c: int| 0 <= c < 3 implies #[trigger] group_average(painted_image, g, c)
            == group_average(image, g, c) by {
            assert forall|q: int| 0 <= q < g.len() implies #[trigger] raster_at(
                painted_image,
                g[q].0,
                g[q].1,
                source_channel(painted_image, c),
            ) == avg[c] by {
                let p = g[q];
                assert(g.contains(p));
                lemma_scan_group_contains(owner, height as int, t as usize, width as int, p);
                lemma_lookup_table_paints_triangle_means(
                    table,
                    owner,
                    image,
                    width,
                    height,
                    n_triangles,
                    p.0,
                    p.1,
                    c,
                );
                assert(source_channel(painted_image, c) == c as usize);
                assert(raster_in_bounds(image, p.0 as int, p.1 as int, c));
                assert(raster_at(painted_image, p.0, p.1, c as usize) == painted(
                    groups_view(table.0@),
                    colors_view(table.1@),
                    p.0,
                    p.1,
                    c,
                ));
            }
            lemma_channel_sum_constant(painted_image, g, c, avg[c]);
            if g.len() > 0 {
                lemma_div_multiples_vanish(avg[c] as int, g.len() as int);
            }
        }
        assert(average_color(painted_image, g) =~= avg);
    }
    assert(forall|t: int|
            0 <= t < n_triangles ==> (#[trigger] table2.0@[t])@ =~= table.0@[t]@);
}

} // verus!
