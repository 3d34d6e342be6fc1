use vstd::prelude::*;

use crate::point::Point;

verus! {

/// The largest width or height, in pixels, that an [`Image`] may have
/// (`i32::MAX`): every position inside the image, and the image's sides
/// themselves, are `i32` values, as the tracer's points and its search
/// distance are. [`Image::new`] refuses larger images.
pub const MAX_SIDE: u32 = 0x7fff_ffff;

/// An RGBA colour with 8 bits per channel.
#[derive(Clone, Copy, Debug, PartialEq, Eq, Structural)]
pub struct Pixel {
    pub r: u8,
    pub g: u8,
    pub b: u8,
    pub a: u8,
}

/// Opaque white, the colour of the paper.
pub open spec fn white() -> Pixel {
    Pixel { r: 255, g: 255, b: 255, a: 255 }
}

/// A grey that is darker than white: the colour of the drawn line.
pub open spec fn is_black(p: Pixel) -> bool {
    p.r < 255 && p.r == p.g && p.g == p.b
}

/// Returns opaque white.
pub fn white_pixel() -> (p: Pixel)
    ensures
        p == white(),
{
    Pixel { r: 255, g: 255, b: 255, a: 255 }
}

/// Whether `pixel` belongs to the drawn line: its three colour channels are
/// equal and not all at full intensity. Alpha is ignored.
pub fn black_pixel(pixel: &Pixel) -> (b: bool)
    ensures
        b == is_black(*pixel),
{
    pixel.r < 255 && pixel.r == pixel.g && pixel.g == pixel.b
}

/// A rectangular grid of pixels, stored row by row.
pub struct Image {
    width: u32,
    height: u32,
    pixels: Vec<Pixel>,
}

impl Image {
    /// The number of columns.
    pub closed spec fn width(self) -> nat {
        self.width as nat
    }

    /// The number of rows.
    pub closed spec fn height(self) -> nat {
        self.height as nat
    }

    /// The colour at column `x` and row `y`; meaningful for positions inside
    /// the image.
    pub closed spec fn pixel_at(self, x: int, y: int) -> Pixel {
        self.pixels@[y * self.width + x]
    }

    /// The pixel buffer holds one pixel per position.
    pub closed spec fn shape_ok(self) -> bool {
        self.pixels@.len() == self.width * self.height
    }

    /// Well-formedness: the sides are within [`MAX_SIDE`] and there is one
    /// pixel per position.
    pub open spec fn wf(self) -> bool {
        &&& self.width() <= MAX_SIDE
        &&& self.height() <= MAX_SIDE
        &&& self.shape_ok()
    }

    /// Whether `p` lies inside the image.
    pub open spec fn contains(self, p: Point) -> bool {
        0 <= p.x < self.width() && 0 <= p.y < self.height()
    }

    /// The colour at `p`.
    pub open spec fn color(self, p: Point) -> Pixel {
        self.pixel_at(p.x as int, p.y as int)
    }

    /// Builds an image from its rows laid end to end; `None` when the buffer
    /// does not hold exactly `width * height` pixels or a side exceeds
    /// [`MAX_SIDE`].
    pub fn new(width: u32, height: u32, pixels: Vec<Pixel>) -> (r: Option<Image>)
        ensures
            r is Some <==> (width <= MAX_SIDE && height <= MAX_SIDE && pixels@.len() == width
                * height),
            r matches Some(img) ==> {
                &&& img.wf()
                &&& img.width() == width
                &&& img.height() == height
                &&& forall|x: int, y: int|
                    0 <= x < width && 0 <= y < height ==> #[trigger] img.pixel_at(x, y)
                        == pixels@[y * width + x]
            },
    {
        if width > MAX_SIDE || height > MAX_SIDE {
            return None;
        }
        assert((width as u64) * (height as u64) <= 0x7fff_ffff * 0x7fff_ffff) by (nonlinear_arith)
            requires
                width <= 0x7fff_ffffu32,
                height <= 0x7fff_ffffu32,
        ;
        let count: u64 = (width as u64) * (height as u64);
        if pixels.len() as u64 != count {
            return None;
        }
        Some(Image { width, height, pixels })
    }

    /// The width and height.
    pub fn dimensions(&self) -> (d: (u32, u32))
        requires
            self.wf(),
        ensures
            d.0 == self.width(),
            d.1 == self.height(),
            d.0 <= MAX_SIDE,
            d.1 <= MAX_SIDE,
    {
        (self.width, self.height)
    }

    /// Whether `p` lies inside the image.
    pub fn in_bounds(&self, p: Point) -> (b: bool)
        ensures
            b == self.contains(p),
    {
        0 <= p.x && 0 <= p.y && (p.x as u32) < self.width && (p.y as u32) < self.height
    }

    /// The colour at `p`, or `None` when `p` lies outside the image.
    pub fn get_pixel(&self, p: Point) -> (c: Option<Pixel>)
        requires
            self.wf(),
        ensures
            c == (if self.contains(p) {
                Some(self.color(p))
            } else {
                None
            }),
    {
        if !self.in_bounds(p) {
            return None;
        }
        let x: usize = p.x as usize;
        let y: usize = p.y as usize;
        let w: usize = self.width as usize;
        let n: usize = self.pixels.len();
        proof {
            let h = self.height as int;
            assert(y * w <= (h - 1) * w) by (nonlinear_arith)
                requires
                    y <= h - 1,
                    w >= 0,
            ;
            assert((h - 1) * w + w == h * w) by (nonlinear_arith);
            assert(w * h == h * w) by (nonlinear_arith);
            assert(y * w + x < n);
        }
        Some(self.pixels[y * w + x])
    }
}

} // verus!

verus! {

/// Every position inside `img`.
pub open spec fn grid(img: Image) -> Set<Point> {
    Set::new(|p: Point| img.contains(p))
}

/// Every colour that occurs somewhere in `img`.
pub open spec fn palette(img: Image) -> Set<Pixel> {
    grid(img).map(|p: Point| img.color(p))
}

/// The position with row-major index `i` in an image `w` columns wide.
pub open spec fn position_of_index(i: int, w: int) -> Point {
    Point { x: (i % w) as i32, y: (i / w) as i32 }
}

/// An image has finitely many positions, at most `width * height` of them.
pub proof fn lemma_grid_size(img: Image)
    requires
        img.wf(),
    ensures
        grid(img).finite(),
        grid(img).len() <= img.width() * img.height(),
{
    let w = img.width() as int;
    let h = img.height() as int;
    let n = w * h;
    assert(w * h >= 0) by (nonlinear_arith)
        requires
            w >= 0,
            h >= 0,
    ;
    let f = |i: int| position_of_index(i, w);
    let indices = vstd::set_lib::set_int_range(0, n);
    vstd::set_lib::lemma_int_range(0, n);
    let image_of = indices.map(f);
    vstd::set_lib::lemma_map_size_bound(indices, image_of, f);
    assert forall|p: Point| #[trigger] grid(img).contains(p) implies image_of.contains(p) by {
        let i = p.y * w + p.x;
        assert(p.y * w <= (h - 1) * w) by (nonlinear_arith)
            requires
                p.y <= h - 1,
                w >= 0,
        ;
        assert((h - 1) * w + w == w * h) by (nonlinear_arith);
        assert(0 <= p.y * w) by (nonlinear_arith)
            requires
                p.y >= 0,
                w >= 0,
        ;
        vstd::arithmetic::div_mod::lemma_fundamental_div_mod_converse(i, w, p.y as int, p.x as int);
        assert(indices.contains(i));
        assert(f(i) == p);
    }
    vstd::set_lib::lemma_len_subset(grid(img), image_of);
}

/// An image has at most `width * height` distinct colours.
pub proof fn lemma_palette_size(img: Image)
    requires
        img.wf(),
    ensures
        palette(img).finite(),
        palette(img).len() <= img.width() * img.height(),
{
    lemma_grid_size(img);
    vstd::set_lib::lemma_map_size_bound(grid(img), palette(img), |p: Point| img.color(p));
}

/// A sequence of distinct positions inside `img` is no longer than the
/// image has pixels.
pub proof fn lemma_distinct_positions_bounded(img: Image, s: Seq<Point>)
    requires
        img.wf(),
        s.no_duplicates(),
        forall|i: int| 0 <= i < s.len() ==> img.contains(#[trigger] s[i]),
    ensures
        s.len() <= img.width() * img.height(),
{
    lemma_grid_size(img);
    s.unique_seq_to_set();
    assert(s.to_set().subset_of(grid(img)));
    vstd::set_lib::lemma_len_subset(s.to_set(), grid(img));
}

/// A sequence of distinct colours that occur in `img` is no longer than the
/// image has pixels.
pub proof fn lemma_distinct_colors_bounded(img: Image, s: Seq<Pixel>)
    requires
        img.wf(),
        s.no_duplicates(),
        forall|i: int| 0 <= i < s.len() ==> palette(img).contains(#[trigger] s[i]),
    ensures
        s.len() <= img.width() * img.height(),
{
    lemma_palette_size(img);
    s.unique_seq_to_set();
    assert(s.to_set().subset_of(palette(img)));
    vstd::set_lib::lemma_len_subset(s.to_set(), palette(img));
}

} // verus!
