//! Owned `ndarray` arrays of bytes and indices, seen by contracts as maps from
//! in-bounds coordinates to values.
//!
//! The arrays themselves live in private fields; every method that touches
//! them is a thin trusted wrapper around one `ndarray` function.
use vstd::prelude::*;

verus! {

/// An axis length as it counts towards `ndarray`'s size limit: empty axes do not count.
pub open spec fn nonzero_len(n: int) -> int {
    if n == 0 {
        1
    } else {
        n
    }
}

/// `ndarray` accepts a shape when the product of its non-zero axis lengths fits in `isize`.
pub open spec fn shape_fits3(h: int, w: int, d: int) -> bool {
    nonzero_len(h) * nonzero_len(w) * nonzero_len(d) <= isize::MAX
}

/// Two-axis version of [`shape_fits3`].
pub open spec fn shape_fits2(r: int, c: int) -> bool {
    nonzero_len(r) * nonzero_len(c) <= isize::MAX
}

/// Row-major position of `(i, j, k)` in an array of shape `(_, w, d)`.
pub open spec fn flat3(w: int, d: int, i: int, j: int, k: int) -> int {
    (i * w + j) * d + k
}

/// The coordinates of row-major position `n` in an array of shape `(_, w, d)`.
pub open spec fn unflat3(w: int, d: int, n: int) -> (usize, usize, usize) {
    ((n / (w * d)) as usize, ((n / d) % w) as usize, (n % d) as usize)
}

/// Row-major position of `(i, j)` in an array with `c` columns.
pub open spec fn flat2(c: int, i: int, j: int) -> int {
    i * c + j
}

/// An owned three-axis array of bytes (`ndarray::Array3<u8>`), laid out row-major.
#[verifier::external_body]
pub struct Raster {
    array: ndarray::Array3<u8>,
}

/// The shape `(axis 0, axis 1, axis 2)` of a raster.
pub uninterp spec fn raster_shape(r: Raster) -> (usize, usize, usize);

/// What a raster holds: the byte at each in-bounds coordinate.
pub uninterp spec fn raster_cells(r: Raster) -> Map<(usize, usize, usize), u8>;

/// The byte of `r` at `(i, j, k)`.
pub open spec fn raster_at(r: Raster, i: usize, j: usize, k: usize) -> u8 {
    raster_cells(r)[(i, j, k)]
}

/// `(i, j, k)` is a valid coordinate of `r`.
pub open spec fn raster_in_bounds(r: Raster, i: int, j: int, k: int) -> bool {
    &&& 0 <= i < raster_shape(r).0
    &&& 0 <= j < raster_shape(r).1
    &&& 0 <= k < raster_shape(r).2
}

/// The row-major sequence of the bytes of `r`.
pub open spec fn raster_row_major(r: Raster) -> Seq<u8> {
    let (h, w, d) = raster_shape(r);
    Seq::new(
        (h * w * d) as nat,
        |n: int| raster_cells(r)[unflat3(w as int, d as int, n)],
    )
}

/// An owned two-axis array of bytes (`ndarray::Array2<u8>`).
#[verifier::external_body]
pub struct ByteGrid {
    array: ndarray::Array2<u8>,
}

/// The shape `(rows, columns)` of a byte grid.
pub uninterp spec fn byte_grid_shape(g: ByteGrid) -> (usize, usize);

/// What a byte grid holds: the byte at each in-bounds coordinate.
pub uninterp spec fn byte_grid_cells(g: ByteGrid) -> Map<(usize, usize), u8>;

/// An owned two-axis array of indices (`ndarray::Array2<usize>`).
#[verifier::external_body]
pub struct IndexGrid {
    array: ndarray::Array2<usize>,
}

/// The shape `(rows, columns)` of an index grid.
pub uninterp spec fn index_grid_shape(g: IndexGrid) -> (usize, usize);

/// What an index grid holds: the index at each in-bounds coordinate.
pub uninterp spec fn index_grid_cells(g: IndexGrid) -> Map<(usize, usize), usize>;

/// `ndarray`'s error for a shape that does not suit the data.
#[verifier::external_type_specification]
#[verifier::external_body]
pub struct ExShapeError(ndarray::ShapeError);

/// The shape that was asked for does not fit the data handed over, or is too large.
#[derive(Debug, Clone, Copy, PartialEq, Eq, Structural)]
pub enum ShapeMismatch {
    BadShape,
}

impl Raster {
    /// `Array3::zeros((h, w, d))`: every byte 0. ndarray panics when the shape is too
    /// large, which `requires` leaves out.
    #[verifier::external_body]
    pub(crate) fn zeros(h: usize, w: usize, d: usize) -> (res: Raster)
        requires
            shape_fits3(h as int, w as int, d as int),
        ensures
            raster_shape(res) == (h, w, d),
            forall|i: usize, j: usize, k: usize|
                i < h && j < w && k < d ==> #[trigger] raster_at(res, i, j, k) == 0,
    {
        Raster { array: ndarray::Array3::<u8>::zeros((h, w, d)) }
    }

    /// `Array3::from_elem((h, w, d), v)`: every byte `v`. ndarray panics when the shape
    /// is too large, which `requires` leaves out.
    #[verifier::external_body]
    pub(crate) fn from_elem(h: usize, w: usize, d: usize, v: u8) -> (res: Raster)
        requires
            shape_fits3(h as int, w as int, d as int),
        ensures
            raster_shape(res) == (h, w, d),
            forall|i: usize, j: usize, k: usize|
                i < h && j < w && k < d ==> #[trigger] raster_at(res, i, j, k) == v,
    {
        Raster { array: ndarray::Array3::<u8>::from_elem((h, w, d), v) }
    }

    /// `Array3::from_shape_vec((h, w, d), data)`: succeeds exactly when the shape fits
    /// and `data` holds `h * w * d` bytes, which it then reads in row-major order.
    #[verifier::external_body]
    pub(crate) fn from_shape_vec(h: usize, w: usize, d: usize, data: Vec<u8>) -> (res: Result<
        Raster,
        ndarray::ShapeError,
    >)
        ensures
            res is Ok <==> (shape_fits3(h as int, w as int, d as int) && data@.len() == h * w
                * d),
            res matches Ok(r) ==> {
                &&& raster_shape(r) == (h, w, d)
                &&& forall|i: usize, j: usize, k: usize|
                    i < h && j < w && k < d ==> #[trigger] raster_at(r, i, j, k) == data@[flat3(
                        w as int,
                        d as int,
                        i as int,
                        j as int,
                        k as int,
                    )]
            },
    {
        match ndarray::Array3::<u8>::from_shape_vec((h, w, d), data) {
            Ok(array) => Ok(Raster { array }),
            Err(e) => Err(e),
        }
    }

    /// The shape `(axis 0, axis 1, axis 2)` of the raster, which always fits `ndarray`'s
    /// size limit.
    pub fn shape(&self) -> (res: (usize, usize, usize))
        ensures
            res == raster_shape(*self),
            shape_fits3(res.0 as int, res.1 as int, res.2 as int),
    {
        self.dim()
    }

    /// `ArrayBase::dim`: the shape; ndarray keeps every accepted shape within its size limit.
    #[verifier::external_body]
    pub(crate) fn dim(&self) -> (res: (usize, usize, usize))
        ensures
            res == raster_shape(*self),
            shape_fits3(res.0 as int, res.1 as int, res.2 as int),
    {
        self.array.dim()
    }

    /// `array[[i, j, k]]`, which panics out of bounds.
    #[verifier::external_body]
    pub(crate) fn get(&self, i: usize, j: usize, k: usize) -> (res: u8)
        requires
            raster_in_bounds(*self, i as int, j as int, k as int),
        ensures
            res == raster_at(*self, i, j, k),
    {
        self.array[[i, j, k]]
    }

    /// `array[[i, j, k]] = v`, which panics only out of bounds; nothing else changes.
    #[verifier::external_body]
    pub(crate) fn set(&mut self, i: usize, j: usize, k: usize, v: u8)
        requires
            raster_in_bounds(*old(self), i as int, j as int, k as int),
        ensures
            raster_shape(*final(self)) == raster_shape(*old(self)),
            raster_cells(*final(self)) == raster_cells(*old(self)).insert((i, j, k), v),
        no_unwind
    {
        self.array[[i, j, k]] = v;
    }

    /// `array.clone().into_raw_vec_and_offset()`: the buffer of a clone. Every raster is
    /// built by `zeros`, `from_elem` or `from_shape_vec` and changed only element by
    /// element, so it keeps ndarray's standard layout, where the buffer is the row-major
    /// sequence of the elements.
    #[verifier::external_body]
    pub(crate) fn to_raw_vec(&self) -> (res: Vec<u8>)
        ensures
            res@ == raster_row_major(*self),
    {
        self.array.clone().into_raw_vec_and_offset().0
    }
}

impl ByteGrid {
    /// A `rows` by `cols` grid read row by row from `data`, or `BadShape` when `data`
    /// does not hold `rows * cols` bytes or the shape is too large.
    pub fn new(rows: usize, cols: usize, data: Vec<u8>) -> (res: Result<ByteGrid, ShapeMismatch>)
        ensures
            res is Ok <==> (shape_fits2(rows as int, cols as int) && data@.len() == rows * cols),
            res matches Ok(g) ==> {
                &&& byte_grid_shape(g) == (rows, cols)
                &&& forall|i: usize, j: usize|
                    i < rows && j < cols ==> #[trigger] byte_grid_cells(g)[(i, j)] == data@[i * cols + j]
            },
    {
        match ByteGrid::from_shape_vec(rows, cols, data) {
            Ok(g) => Ok(g),
            Err(_) => Err(ShapeMismatch::BadShape),
        }
    }

    /// `Array2::from_shape_vec((rows, cols), data)`: succeeds exactly when the shape fits
    /// and `data` holds `rows * cols` bytes, which it then reads row by row.
    #[verifier::external_body]
    pub(crate) fn from_shape_vec(rows: usize, cols: usize, data: Vec<u8>) -> (res: Result<
        ByteGrid,
        ndarray::ShapeError,
    >)
        ensures
            res is Ok <==> (shape_fits2(rows as int, cols as int) && data@.len() == rows * cols),
            res matches Ok(g) ==> {
                &&& byte_grid_shape(g) == (rows, cols)
                &&& forall|i: usize, j: usize|
                    i < rows && j < cols ==> #[trigger] byte_grid_cells(g)[(i, j)] == data@[flat2(
                        cols as int,
                        i as int,
                        j as int,
                    )]
            },
    {
        match ndarray::Array2::<u8>::from_shape_vec((rows, cols), data) {
            Ok(array) => Ok(ByteGrid { array }),
            Err(e) => Err(e),
        }
    }

    /// `grid[[i, j]]`, which panics out of bounds.
    #[verifier::external_body]
    pub(crate) fn get(&self, i: usize, j: usize) -> (res: u8)
        requires
            i < byte_grid_shape(*self).0,
            j < byte_grid_shape(*self).1,
        ensures
            res == byte_grid_cells(*self)[(i, j)],
    {
        self.array[[i, j]]
    }
}

impl IndexGrid {
    /// A `rows` by `cols` grid read row by row from `data`, or `BadShape` when `data`
    /// does not hold `rows * cols` indices or the shape is too large.
    pub fn new(rows: usize, cols: usize, data: Vec<usize>) -> (res: Result<IndexGrid, ShapeMismatch>)
        ensures
            res is Ok <==> (shape_fits2(rows as int, cols as int) && data@.len() == rows * cols),
            res matches Ok(g) ==> {
                &&& index_grid_shape(g) == (rows, cols)
                &&& forall|i: usize, j: usize|
                    i < rows && j < cols ==> #[trigger] index_grid_cells(g)[(i, j)] == data@[i * cols + j]
            },
    {
        match IndexGrid::from_shape_vec(rows, cols, data) {
            Ok(g) => Ok(g),
            Err(_) => Err(ShapeMismatch::BadShape),
        }
    }

    /// `Array2::from_shape_vec((rows, cols), data)`: succeeds exactly when the shape fits
    /// and `data` holds `rows * cols` indices, which it then reads row by row.
    #[verifier::external_body]
    pub(crate) fn from_shape_vec(rows: usize, cols: usize, data: Vec<usize>) -> (res: Result<
        IndexGrid,
        ndarray::ShapeError,
    >)
        ensures
            res is Ok <==> (shape_fits2(rows as int, cols as int) && data@.len() == rows * cols),
            res matches Ok(g) ==> {
                &&& index_grid_shape(g) == (rows, cols)
                &&& forall|i: usize, j: usize|
                    i < rows && j < cols ==> #[trigger] index_grid_cells(g)[(i, j)] == data@[flat2(
                        cols as int,
                        i as int,
                        j as int,
                    )]
            },
    {
        match ndarray::Array2::<usize>::from_shape_vec((rows, cols), data) {
            Ok(array) => Ok(IndexGrid { array }),
            Err(e) => Err(e),
        }
    }

    /// `grid[[i, j]]`, which panics out of bounds.
    #[verifier::external_body]
    pub(crate) fn get(&self, i: usize, j: usize) -> (res: usize)
        requires
            i < index_grid_shape(*self).0,
            j < index_grid_shape(*self).1,
        ensures
            res == index_grid_cells(*self)[(i, j)],
    {
        self.array[[i, j]]
    }
}

} // verus!
