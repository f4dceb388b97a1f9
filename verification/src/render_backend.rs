//! A backend-agnostic canvas of one colour per map square: the CPU fills it,
//! and a presenter (a PNG file, a window) turns it into pixels.
use vstd::prelude::*;
use vstd::arithmetic::div_mod::{lemma_fundamental_div_mod, lemma_fundamental_div_mod_converse};

verus! {

/// The bytes of RGBA pixels laid one after another: byte `4 * i + c` is
/// channel `c` of pixel `i`.
pub open spec fn flatten_rgba(p: Seq<[u8; 4]>) -> Seq<u8> {
    Seq::new(4 * p.len(), |i: int| p[i / 4][i % 4])
}

/// Calls `bytemuck::cast_slice` from `[u8; 4]` pixels to bytes. Per its
/// source the cast keeps the memory and only changes the element type: with
/// four one-byte channels per pixel, and byte alignment on both sides, it
/// never fails, and the bytes are the pixels' channels in order.
#[verifier::external_body]
fn cast_pixels(p: &[[u8; 4]]) -> (r: &[u8])
    ensures
        r@ == flatten_rgba(p@),
{
    bytemuck::cast_slice(p)
}

/// Whether canvas index `i` of a row-major canvas `dw` pixels wide falls in
/// the `sw × sh` rectangle at `(x_off, y_off)`.
pub open spec fn in_tile(i: int, dw: int, sw: int, sh: int, x_off: int, y_off: int) -> bool {
    &&& y_off <= i / dw < y_off + sh
    &&& x_off <= i % dw < x_off + sw
}

/// Whether canvas index `i` has been copied once `rows` full rows and `cols`
/// pixels of the next row of an `sw`-wide tile at `(x_off, y_off)` are done.
pub open spec fn copied(i: int, dw: int, sw: int, x_off: int, y_off: int, rows: int, cols: int) -> bool {
    let y = i / dw;
    let x = i % dw;
    &&& x_off <= x < x_off + sw
    &&& y_off <= y
    &&& (y < y_off + rows || (y == y_off + rows && x < x_off + cols))
}

/// The canvas `dst`, `dw` pixels wide, with the row-major `sw × sh` tile
/// `src` copied in at `(x_off, y_off)`.
pub open spec fn blit_spec(dst: Seq<[u8; 4]>, dw: int, src: Seq<[u8; 4]>, sw: int, sh: int, x_off: int, y_off: int) -> Seq<[u8; 4]> {
    Seq::new(
        dst.len(),
        |i: int|
            if in_tile(i, dw, sw, sh, x_off, y_off) {
                src[(i / dw - y_off) * sw + (i % dw - x_off)]
            } else {
                dst[i]
            },
    )
}

/// One RGBA colour per square, row-major: `width * height` pixels.
pub struct CellColors {
    pub width: u32,
    pub height: u32,
    pub pixels: Vec<[u8; 4]>,
}

/// The index of pixel `(x, y)` in a row-major canvas `width` pixels wide.
pub open spec fn pixel_index(width: u32, x: u32, y: u32) -> int {
    y * width + x
}

impl CellColors {
    /// A transparent black canvas of `width × height` pixels.
    pub fn new(width: u32, height: u32) -> (r: Self)
        requires
            width * height <= u32::MAX,
        ensures
            r.width == width,
            r.height == height,
            r.pixels@ == Seq::new((width * height) as nat, |i: int| [0u8, 0u8, 0u8, 0u8]),
    {
        let n = width * height;
        let mut pixels: Vec<[u8; 4]> = Vec::new();
        let mut i: u32 = 0;
        while i < n
            invariant
                i <= n,
                pixels@ == Seq::new(i as nat, |j: int| [0u8, 0u8, 0u8, 0u8]),
            decreases n - i,
        {
            pixels.push([0u8, 0u8, 0u8, 0u8]);
            i += 1;
            proof {
                assert(pixels@ =~= Seq::new(i as nat, |j: int| [0u8, 0u8, 0u8, 0u8]));
            }
        }
        CellColors { width, height, pixels }
    }

    /// Sets pixel `(x, y)` to `rgba`.
    #[inline]
    pub fn put(&mut self, x: u32, y: u32, rgba: [u8; 4])
        requires
            pixel_index(old(self).width, x, y) <= u32::MAX,
            pixel_index(old(self).width, x, y) < old(self).pixels@.len(),
        ensures
            final(self).width == old(self).width,
            final(self).height == old(self).height,
            final(self).pixels@ == old(self).pixels@.update(pixel_index(old(self).width, x, y), rgba),
    {
        let i = y * self.width + x;
        self.pixels.set(i as usize, rgba);
    }

    /// Copies `tile` into this canvas with its top-left pixel at
    /// `(x_off, y_off)`, row by row.
    pub fn blit(&mut self, tile: &CellColors, x_off: u32, y_off: u32)
        requires
            x_off + tile.width <= old(self).width,
            y_off + tile.height <= old(self).height,
            old(self).width * old(self).height <= u32::MAX,
            old(self).pixels@.len() == old(self).width * old(self).height,
            tile.pixels@.len() == tile.width * tile.height,
        ensures
            final(self).width == old(self).width,
            final(self).height == old(self).height,
            final(self).pixels@ == blit_spec(
                old(self).pixels@,
                old(self).width as int,
                tile.pixels@,
                tile.width as int,
                tile.height as int,
                x_off as int,
                y_off as int,
            ),
    {
        let w = self.width;
        let h = self.height;
        let tw = tile.width;
        let th = tile.height;
        let ghost dst = self.pixels@;
        proof {
            assert(tw * th <= w * self.height) by (nonlinear_arith)
                requires
                    tw <= w,
                    th <= self.height,
            ;
        }
        let mut ty: u32 = 0;
        while ty < th
            invariant
                ty <= th,
                w == self.width,
                h == self.height,
                tw * th <= w * self.height,
                x_off + tw <= w,
                y_off + th <= self.height,
                w * self.height <= u32::MAX,
                self.pixels@.len() == dst.len(),
                dst.len() == w * self.height,
                tile.pixels@.len() == tw * th,
                tw == tile.width,
                th == tile.height,
                forall|i: int| 0 <= i < dst.len() ==> #[trigger] self.pixels@[i] == (if copied(i, w as int, tw as int, x_off as int, y_off as int, ty as int, 0) {
                    tile.pixels@[(i / (w as int) - y_off) * tw + (i % (w as int) - x_off)]
                } else {
                    dst[i]
                }),
            decreases th - ty,
        {
            proof {
                assert((y_off + ty) * w + w <= w * self.height) by (nonlinear_arith)
                    requires
                        y_off + ty < self.height,
                ;
                assert(ty * tw + tw <= tw * th) by (nonlinear_arith)
                    requires
                        ty < th,
                ;
            }
            let dst_row = (y_off + ty) * w + x_off;
            let src_row = ty * tw;
            let mut tx: u32 = 0;
            while tx < tw
                invariant
                    ty < th,
                    tx <= tw,
                    w == self.width,
                    h == self.height,
                    tw * th <= w * self.height,
                    x_off + tw <= w,
                    y_off + th <= self.height,
                    dst_row == (y_off + ty) * w + x_off,
                    src_row == ty * tw,
                    (y_off + ty) * w + w <= w * self.height,
                    ty * tw + tw <= tw * th,
                    w * self.height <= u32::MAX,
                    self.pixels@.len() == dst.len(),
                    dst.len() == w * self.height,
                    tile.pixels@.len() == tw * th,
                    tw == tile.width,
                    forall|i: int| 0 <= i < dst.len() ==> #[trigger] self.pixels@[i] == (if copied(i, w as int, tw as int, x_off as int, y_off as int, ty as int, tx as int) {
                        tile.pixels@[(i / (w as int) - y_off) * tw + (i % (w as int) - x_off)]
                    } else {
                        dst[i]
                    }),
                decreases tw - tx,
            {
                let k = (dst_row + tx) as usize;
                let v = tile.pixels[(src_row + tx) as usize];
                let ghost before = self.pixels@;
                self.pixels.set(k, v);
                proof {
                    let wi = w as int;
                    lemma_fundamental_div_mod_converse(k as int, wi, (y_off + ty) as int, (x_off + tx) as int);
                    assert forall|i: int| 0 <= i < dst.len() implies #[trigger] self.pixels@[i] == (if copied(i, wi, tw as int, x_off as int, y_off as int, ty as int, tx + 1) {
                        tile.pixels@[(i / wi - y_off) * tw + (i % wi - x_off)]
                    } else {
                        dst[i]
                    }) by {
                        if i != k {
                            assert(before[i] == self.pixels@[i]);
                            lemma_fundamental_div_mod(i, wi);
                            if i / wi == y_off + ty && i % wi == x_off + tx {
                                assert(i == wi * (y_off + ty) + (x_off + tx));
                                assert(wi * (y_off + ty) == (y_off + ty) * wi) by (nonlinear_arith);
                                assert(false);
                            }
                        }
                    }
                }
                tx += 1;
            }
            proof {
                let wi = w as int;
                assert forall|i: int| 0 <= i < dst.len() implies copied(i, wi, tw as int, x_off as int, y_off as int, ty as int, tw as int)
                    == copied(i, wi, tw as int, x_off as int, y_off as int, ty + 1, 0) by {}
            }
            ty += 1;
        }
        proof {
            let wi = w as int;
            assert forall|i: int| 0 <= i < dst.len() implies #[trigger] self.pixels@[i] == blit_spec(
                dst,
                wi,
                tile.pixels@,
                tw as int,
                th as int,
                x_off as int,
                y_off as int,
            )[i] by {
                assert(copied(i, wi, tw as int, x_off as int, y_off as int, th as int, 0) == in_tile(i, wi, tw as int, th as int, x_off as int, y_off as int));
            }
            assert(self.pixels@ =~= blit_spec(dst, wi, tile.pixels@, tw as int, th as int, x_off as int, y_off as int));
        }
    }

    /// The pixels as bytes, four per pixel in channel order, for texture
    /// upload or PNG encoding.
    pub fn as_bytes(&self) -> (r: &[u8])
        ensures
            r@ == flatten_rgba(self.pixels@),
    {
        cast_pixels(self.pixels.as_slice())
    }
}


/// Setting pixel `i` shows up in the byte view as its four channels at bytes
/// `4 i .. 4 i + 4`, and leaves every other byte as it was.
pub proof fn lemma_put_shows_in_bytes(p: Seq<[u8; 4]>, i: int, c: [u8; 4])
    requires
        0 <= i < p.len(),
    ensures
        flatten_rgba(p.update(i, c)).len() == flatten_rgba(p).len(),
        forall|k: int| 0 <= k < 4 ==> #[trigger] flatten_rgba(p.update(i, c))[4 * i + k] == c[k],
        forall|j: int|
            0 <= j < flatten_rgba(p).len() && (j < 4 * i || j >= 4 * i + 4) ==> #[trigger] flatten_rgba(
                p.update(i, c),
            )[j] == flatten_rgba(p)[j],
{
    assert forall|k: int| 0 <= k < 4 implies #[trigger] flatten_rgba(p.update(i, c))[4 * i + k] == c[k] by {
        assert((4 * i + k) / 4 == i);
        assert((4 * i + k) % 4 == k);
    }
    assert forall|j: int|
        0 <= j < flatten_rgba(p).len() && (j < 4 * i || j >= 4 * i + 4) implies #[trigger] flatten_rgba(
            p.update(i, c),
        )[j] == flatten_rgba(p)[j] by {
        assert(j / 4 != i);
        assert(0 <= j / 4 < p.len());
    }
}


/// Puts at two different pixels of a row commute, and a second put at the
/// same pixel overrides the first.
pub proof fn lemma_puts_commute(p: Seq<[u8; 4]>, width: u32, x1: u32, y1: u32, x2: u32, y2: u32, a: [u8; 4], b: [u8; 4])
    requires
        x1 < width,
        x2 < width,
        pixel_index(width, x1, y1) < p.len(),
        pixel_index(width, x2, y2) < p.len(),
    ensures
        (x1, y1) != (x2, y2) ==> p.update(pixel_index(width, x1, y1), a).update(pixel_index(width, x2, y2), b)
            == p.update(pixel_index(width, x2, y2), b).update(pixel_index(width, x1, y1), a),
        p.update(pixel_index(width, x1, y1), a).update(pixel_index(width, x1, y1), b) == p.update(
            pixel_index(width, x1, y1),
            b,
        ),
{
    let i1 = pixel_index(width, x1, y1);
    let i2 = pixel_index(width, x2, y2);
    if (x1, y1) != (x2, y2) {
        lemma_fundamental_div_mod_converse(i1, width as int, y1 as int, x1 as int);
        lemma_fundamental_div_mod_converse(i2, width as int, y2 as int, x2 as int);
        assert(i1 != i2);
        assert(p.update(i1, a).update(i2, b) =~= p.update(i2, b).update(i1, a));
    }
    assert(p.update(i1, a).update(i1, b) =~= p.update(i1, b));
}


/// On a canvas holding one pixel per position, a pixel inside the canvas
/// can be put: its index fits `u32` and lies within the pixels.
pub proof fn lemma_put_in_bounds(c: CellColors, x: u32, y: u32)
    requires
        c.pixels@.len() == c.width * c.height,
        c.width * c.height <= u32::MAX,
        x < c.width,
        y < c.height,
    ensures
        pixel_index(c.width, x, y) < c.pixels@.len(),
        pixel_index(c.width, x, y) <= u32::MAX,
{
    assert(y * c.width + x < c.width * c.height) by (nonlinear_arith)
        requires
            x < c.width,
            y < c.height,
    ;
}

/// On a canvas holding one pixel per position, puts at two different
/// pixels inside it give the same canvas in either order, and a second put
/// at the same pixel overrides the first.
pub proof fn lemma_canvas_puts_commute(c: CellColors, x1: u32, y1: u32, x2: u32, y2: u32, a: [u8; 4], b: [u8; 4])
    requires
        c.pixels@.len() == c.width * c.height,
        c.width * c.height <= u32::MAX,
        x1 < c.width,
        y1 < c.height,
        x2 < c.width,
        y2 < c.height,
    ensures
        pixel_index(c.width, x1, y1) < c.pixels@.len(),
        pixel_index(c.width, x2, y2) < c.pixels@.len(),
        (x1, y1) != (x2, y2) ==> c.pixels@.update(pixel_index(c.width, x1, y1), a).update(pixel_index(c.width, x2, y2), b)
            == c.pixels@.update(pixel_index(c.width, x2, y2), b).update(pixel_index(c.width, x1, y1), a),
        c.pixels@.update(pixel_index(c.width, x1, y1), a).update(pixel_index(c.width, x1, y1), b)
            == c.pixels@.update(pixel_index(c.width, x1, y1), b),
{
    lemma_put_in_bounds(c, x1, y1);
    lemma_put_in_bounds(c, x2, y2);
    lemma_puts_commute(c.pixels@, c.width, x1, y1, x2, y2, a, b);
}

} // verus!
