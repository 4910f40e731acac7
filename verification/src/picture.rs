//! An RGB picture: its height and width in pixels and a `(height, width, 3)` raster.
use vstd::prelude::*;
use crate::ndgrid::{
    byte_grid_cells, byte_grid_shape, index_grid_cells, index_grid_shape, raster_at,
    raster_cells, raster_shape, ByteGrid, IndexGrid, Raster,
};

verus! {

/// A picture whose raster always has the shape `(height, width, 3)`.
pub struct Picture {
    height: u32,
    width: u32,
    pixels: Raster,
}

impl Picture {
    #[verifier::type_invariant]
    spec fn shape_matches(self) -> bool {
        raster_shape(self.pixels) == (self.height as usize, self.width as usize, 3usize)
    }

    /// Height in pixels.
    pub closed spec fn height_px(self) -> u32 {
        self.height
    }

    /// Width in pixels.
    pub closed spec fn width_px(self) -> u32 {
        self.width
    }

    /// Channel `c` of the pixel in row `row`, column `col`.
    pub closed spec fn channel(self, row: usize, col: usize, c: usize) -> u8 {
        raster_at(self.pixels, row, col, c)
    }

    /// A picture of the given size, or `None` when the raster does not have the shape
    /// `(height, width, 3)`.
    pub fn new(height: u32, width: u32, pixels: Raster) -> (res: Option<Picture>)
        ensures
            res is Some <==> raster_shape(pixels) == (height as usize, width as usize, 3usize),
            res matches Some(p) ==> {
                &&& p.height_px() == height
                &&& p.width_px() == width
                &&& forall|row: usize, col: usize, c: usize|
                    row < height && col < width && c < 3 ==> #[trigger] p.channel(row, col, c)
                        == raster_at(pixels, row, col, c)
            },
    {
        let (h, w, d) = pixels.dim();
        if h == height as usize && w == width as usize && d == 3 {
            Some(Picture { height, width, pixels })
        } else {
            None
        }
    }

    /// `(width, height)` in pixels.
    pub fn dimension(&self) -> (res: (usize, usize))
        ensures
            res == (self.width_px() as usize, self.height_px() as usize),
    {
        (self.width as usize, self.height as usize)
    }

    /// The three channels of the pixel at index `idx` along the first axis (row) and
    /// `idy` along the second (column).
    pub fn get_pixel(&self, idx: usize, idy: usize) -> (res: [u8; 3])
        requires
            idx < self.height_px(),
            idy < self.width_px(),
        ensures
            res@ == seq![self.channel(idx, idy, 0), self.channel(idx, idy, 1), self.channel(idx, idy, 2)],
    {
        proof {
            use_type_invariant(self);
        }
        [self.pixels.get(idx, idy, 0), self.pixels.get(idx, idy, 1), self.pixels.get(idx, idy, 2)]
    }

    /// Saving is not implemented: the call does nothing.
    pub fn save(&self, path: &str) {
    }

    /// Recolours the picture: for `w` below the width and `h` below the height, the
    /// pixel at index `[w, h]` takes row `lookup_table[[w, h]]` of `colors`. Indexing by
    /// width first, as it does, reaches past the raster unless the picture is square or
    /// empty.
    pub fn apply_colormap(&mut self, color_information: (ByteGrid, IndexGrid)) -> (res: &Self)
        requires
            old(self).width_px() > 0 && old(self).height_px() > 0 ==> {
                &&& old(self).width_px() == old(self).height_px()
                &&& old(self).width_px() <= index_grid_shape(color_information.1).0
                &&& old(self).height_px() <= index_grid_shape(color_information.1).1
                &&& 3 <= byte_grid_shape(color_information.0).1
            },
            forall|w: usize, h: usize|
                w < old(self).width_px() && h < old(self).height_px() ==> #[trigger] index_grid_cells(
                    color_information.1,
                )[(w, h)] < byte_grid_shape(color_information.0).0,
        ensures
            final(self).width_px() == old(self).width_px(),
            final(self).height_px() == old(self).height_px(),
            *res == *final(self),
            forall|a: usize, b: usize, c: usize|
                a < old(self).height_px() && b < old(self).width_px() && c < 3 ==> #[trigger] final(self).channel(a, b, c) == if a < old(self).width_px() && b < old(self).height_px() {
                    byte_grid_cells(color_information.0)[(
                        index_grid_cells(color_information.1)[(a, b)],
                        c,
                    )]
                } else {
                    old(self).channel(a, b, c)
                },
    {
        proof {
            use_type_invariant(&*self);
        }
        let (colors, lookup_table) = color_information;
        let ghost orig = raster_cells(self.pixels);
        let (width, height) = self.dimension();
        let mut w: usize = 0;
        while w < width
            invariant
                w <= width,
                width == self.width as usize,
                height == self.height as usize,
                width > 0 && height > 0 ==> {
                    &&& width == height
                    &&& width <= index_grid_shape(lookup_table).0
                    &&& height <= index_grid_shape(lookup_table).1
                    &&& 3 <= byte_grid_shape(colors).1
                },
                forall|w2: usize, h2: usize|
                    w2 < width && h2 < height ==> #[trigger] index_grid_cells(lookup_table)[(w2, h2)]
                        < byte_grid_shape(colors).0,
                raster_shape(self.pixels) == (height, width, 3usize),
                forall|a: usize, b: usize, c: usize|
                    a < height && b < width && c < 3 ==> #[trigger] raster_cells(self.pixels)[(
                        a,
                        b,
                        c,
                    )] == if a < w && b < height {
                        byte_grid_cells(colors)[(index_grid_cells(lookup_table)[(a, b)], c)]
                    } else {
                        orig[(a, b, c)]
                    },
            decreases width - w,
        {
            let mut h: usize = 0;
            while h < height
                invariant
                    w < width,
                    h <= height,
                    width == self.width as usize,
                    height == self.height as usize,
                    width > 0 && height > 0 ==> {
                        &&& width == height
                        &&& width <= index_grid_shape(lookup_table).0
                        &&& height <= index_grid_shape(lookup_table).1
                        &&& 3 <= byte_grid_shape(colors).1
                    },
                    forall|w2: usize, h2: usize|
                        w2 < width && h2 < height ==> #[trigger] index_grid_cells(lookup_table)[(
                            w2,
                            h2,
                        )] < byte_grid_shape(colors).0,
                    raster_shape(self.pixels) == (height, width, 3usize),
                    forall|a: usize, b: usize, c: usize|
                        a < height && b < width && c < 3 ==> #[trigger] raster_cells(self.pixels)[(
                            a,
                            b,
                            c,
                        )] == if a < w && b < height || a == w && b < h {
                            byte_grid_cells(colors)[(index_grid_cells(lookup_table)[(a, b)], c)]
                        } else {
                            orig[(a, b, c)]
                        },
                decreases height - h,
            {
                let entry = lookup_table.get(w, h);
                let c0 = colors.get(entry, 0);
                let c1 = colors.get(entry, 1);
                let c2 = colors.get(entry, 2);
                self.pixels.set(w, h, 0, c0);
                self.pixels.set(w, h, 1, c1);
                self.pixels.set(w, h, 2, c2);
                h += 1;
            }
            w += 1;
        }
        self
    }
}

} // verus!
