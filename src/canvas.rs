use vstd::prelude::*;

use crate::line::pixels_view;

verus! {

#[verifier::external_type_specification]
pub struct ExImage(raster::Image);

#[verifier::external_type_specification]
pub struct ExColor(raster::Color);

#[verifier::external_type_specification]
#[verifier::external_body]
pub struct ExRasterError(raster::error::RasterError);

/// An opaque RGB color: three 8-bit channels.
#[derive(Debug, Clone, Copy, PartialEq, Eq, Structural)]
pub struct Rgb {
    pub red: u8,
    pub green: u8,
    pub blue: u8,
}

impl Rgb {
    pub fn new(red: u8, green: u8, blue: u8) -> (r: Rgb)
        ensures
            r == (Rgb { red, green, blue }),
    {
        Rgb { red, green, blue }
    }
}

/// A canvas whose byte buffer holds exactly one RGBA quadruple per pixel,
/// laid out row by row, and whose byte offsets fit in `i32`.
pub open spec fn canvas_ok(img: raster::Image) -> bool {
    &&& img.width >= 0
    &&& img.height >= 0
    &&& img.bytes@.len() == 4 * img.width * img.height
    &&& 4 * img.width * img.height <= i32::MAX
}

pub open spec fn in_bounds(p: (int, int), w: int, h: int) -> bool {
    0 <= p.0 < w && 0 <= p.1 < h
}

/// The bytes after pixel `(x, y)` of a `w`-wide canvas is set to `c`, fully opaque.
pub open spec fn put(bytes: Seq<u8>, w: int, x: int, y: int, c: Rgb) -> Seq<u8> {
    let s = 4 * (y * w + x);
    bytes.update(s, c.red).update(s + 1, c.green).update(s + 2, c.blue).update(s + 3, 255u8)
}

/// The bytes after writing color `c` at each in-bounds pixel of `pix`, in order;
/// pixels outside `[0, w) x [0, h)` are skipped.
pub open spec fn paint(bytes: Seq<u8>, w: int, h: int, pix: Seq<(int, int)>, c: Rgb) -> Seq<u8>
    decreases pix.len(),
{
    if pix.len() == 0 {
        bytes
    } else {
        let prev = paint(bytes, w, h, pix.drop_last(), c);
        let p = pix.last();
        if in_bounds(p, w, h) {
            put(prev, w, p.0, p.1, c)
        } else {
            prev
        }
    }
}

/// Relies on raster's `Color::rgb`: the channels given, with an opaque alpha.
pub assume_specification<'a>[ raster::Color::rgb ](r: u8, g: u8, b: u8) -> (c: raster::Color)
    ensures
        c.r == r,
        c.g == g,
        c.b == b,
        c.a == 255,
;

/// Relies on raster's `Image::set_pixel`: for an in-bounds pixel of a
/// consistent buffer it writes the four channels at offset `4 * (y * width + x)`
/// and succeeds.
pub assume_specification<'a>[ raster::Image::set_pixel ](
    img: &mut raster::Image,
    x: i32,
    y: i32,
    color: raster::Color,
) -> (r: Result<(), raster::error::RasterError>)
    requires
        canvas_ok(*old(img)),
        0 <= x < old(img).width,
        0 <= y < old(img).height,
    ensures
        r is Ok,
        final(img).width == old(img).width,
        final(img).height == old(img).height,
        final(img).bytes@ == old(img).bytes@.update(
            4 * (y * old(img).width + x),
            color.r,
        ).update(4 * (y * old(img).width + x) + 1, color.g).update(
            4 * (y * old(img).width + x) + 2,
            color.b,
        ).update(4 * (y * old(img).width + x) + 3, color.a),
;

proof fn lemma_offset_in_buffer(w: int, h: int, x: int, y: int)
    requires
        0 <= x < w,
        0 <= y < h,
    ensures
        0 <= 4 * (y * w + x),
        4 * (y * w + x) + 3 < 4 * w * h,
{
    assert(0 <= y * w) by (nonlinear_arith)
        requires
            0 <= y,
            0 <= w,
    ;
    assert(y * w + x < w * h) by (nonlinear_arith)
        requires
            0 <= x < w,
            0 <= y < h,
    ;
    assert(4 * w * h == 4 * (w * h)) by (nonlinear_arith);
}

/// Writes color `c` at `(x, y)` when the pixel lies on the canvas; does nothing otherwise.
pub fn write_pixel(img: &mut raster::Image, x: i64, y: i64, c: Rgb)
    requires
        canvas_ok(*old(img)),
    ensures
        final(img).width == old(img).width,
        final(img).height == old(img).height,
        final(img).bytes@ == if in_bounds((x as int, y as int), old(img).width as int, old(img).height as int) {
            put(old(img).bytes@, old(img).width as int, x as int, y as int, c)
        } else {
            old(img).bytes@
        },
        canvas_ok(*final(img)),
{
    if 0 <= x && x < img.width as i64 && 0 <= y && y < img.height as i64 {
        proof {
            lemma_offset_in_buffer(img.width as int, img.height as int, x as int, y as int);
        }
        let _ = img.set_pixel(x as i32, y as i32, raster::Color::rgb(c.red, c.green, c.blue));
    }
}

/// Writes color `c` at each pixel of `pix` in order, skipping those off the canvas;
/// a later write to the same pixel replaces an earlier one.
pub fn paint_pixels(img: &mut raster::Image, pix: &Vec<(i64, i64)>, c: Rgb)
    requires
        canvas_ok(*old(img)),
    ensures
        final(img).width == old(img).width,
        final(img).height == old(img).height,
        canvas_ok(*final(img)),
        final(img).bytes@ == paint(
            old(img).bytes@,
            old(img).width as int,
            old(img).height as int,
            pixels_view(pix@),
            c,
        ),
{
    let ghost start = img.bytes@;
    let ghost w = img.width as int;
    let ghost h = img.height as int;
    let mut i: usize = 0;
    proof {
        assert(pixels_view(pix@).take(0) =~= Seq::<(int, int)>::empty());
    }
    while i < pix.len()
        invariant
            i <= pix@.len(),
            img.width == w,
            img.height == h,
            canvas_ok(*img),
            img.bytes@ == paint(start, w, h, pixels_view(pix@).take(i as int), c),
        decreases pix@.len() - i,
    {
        let p = pix[i];
        write_pixel(img, p.0, p.1, c);
        proof {
            let s = pixels_view(pix@);
            assert(s.take(i as int + 1).drop_last() =~= s.take(i as int));
            assert(s.take(i as int + 1).last() == (p.0 as int, p.1 as int));
        }
        i = i + 1;
    }
    proof {
        assert(pixels_view(pix@).take(i as int) =~= pixels_view(pix@));
    }
}

} // verus!
