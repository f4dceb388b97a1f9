//! DeepZoom Image (DZI) layout: the tile pyramid format that OpenSeadragon
//! reads.
//!
//! A DZI is a `<name>.dzi` descriptor plus a `<name>_files/<level>/<col>_<row>.png`
//! tile tree. The top level (`max_level`) is full resolution; each level below
//! halves both dimensions down to a 1×1 thumbnail. Coarser levels are built by
//! 2×2 box-downscaling the level above. Overlap is 0.
use vstd::prelude::*;
use vstd::arithmetic::power2::{pow2, lemma2_to64, lemma_pow2_unfold, lemma_pow2_strictly_increases};
use vstd::string::StringExecFns;
use crate::text::decimal;
use crate::world::decimal_string;
use crate::texture::{decode_image, image_rgba};

verus! {

/// `a / b` rounded up.
pub open spec fn ceil_div(a: nat, b: nat) -> nat
    recommends
        b > 0,
{
    ((a + b - 1) / b as int) as nat
}

pub open spec fn max_nat(a: nat, b: nat) -> nat {
    if a >= b {
        a
    } else {
        b
    }
}

/// Whether `k` is the least exponent with `2^k >= n`.
pub open spec fn is_ceil_log2(n: nat, k: nat) -> bool {
    pow2(k) >= n && (k == 0 || pow2((k - 1) as nat) < n)
}

/// Layout parameters for one DZI pyramid.
#[derive(Debug, Clone, Copy)]
pub struct Dzi {
    pub width: u32,
    pub height: u32,
    pub tile_size: u32,
    pub overlap: u32,
    /// Level index whose dimensions equal the full image (the base level).
    pub max_level: u32,
}

/// Pixel dimensions of the level `shift` levels below the base of a
/// `width` × `height` image: each halving rounds up, and no side is below 1.
pub open spec fn scaled_dims(width: u32, height: u32, shift: nat) -> (nat, nat) {
    (max_nat(1, ceil_div(width as nat, pow2(shift))), max_nat(1, ceil_div(height as nat, pow2(shift))))
}

/// `ceil(n / 2^shift)` for `shift < 32`.
fn ceil_shift(n: u32, shift: u32) -> (r: u32)
    requires
        shift < 32,
    ensures
        r == ceil_div(n as nat, pow2(shift as nat)),
{
    let mut p: u64 = 1;
    let mut i: u32 = 0;
    proof {
        lemma2_to64();
    }
    while i < shift
        invariant
            i <= shift,
            shift < 32,
            p == pow2(i as nat),
            pow2(i as nat) <= pow2(shift as nat),
            pow2(32) == 0x1_0000_0000,
        decreases shift - i,
    {
        proof {
            lemma_pow2_unfold((i + 1) as nat);
            lemma_pow2_strictly_increases(shift as nat, 32);
            if i + 1 < shift {
                lemma_pow2_strictly_increases((i + 1) as nat, shift as nat);
            }
        }
        p = p * 2;
        i += 1;
    }
    proof {
        lemma_pow2_strictly_increases(shift as nat, 32);
    }
    let q = (n as u64 + p - 1) / p;
    assert(q <= n) by (nonlinear_arith)
        requires
            p >= 1,
            q == (n + p - 1) / (p as int),
    ;
    q as u32
}

/// `ceil(n / d)` for `d > 0`.
fn ceil_div_u32(n: u32, d: u32) -> (r: u32)
    requires
        d > 0,
    ensures
        r == ceil_div(n as nat, d as nat),
{
    let q = (n as u64 + d as u64 - 1) / d as u64;
    assert(q <= n) by (nonlinear_arith)
        requires
            d >= 1,
            q == (n + d - 1) / (d as int),
    ;
    q as u32
}

impl Dzi {
    /// A pyramid whose base level is `width` × `height`: `max_level` is the
    /// least `k` with `2^k >= max(width, height, 1)`.
    pub fn new(width: u32, height: u32, tile_size: u32) -> (r: Self)
        ensures
            r.width == width,
            r.height == height,
            r.tile_size == tile_size,
            r.overlap == 0,
            is_ceil_log2(max_nat(max_nat(width as nat, height as nat), 1), r.max_level as nat),
    {
        let a = if width >= height { width } else { height };
        let max_dim = if a >= 1 { a } else { 1 };
        let mut p: u64 = 1;
        let mut k: u32 = 0;
        proof {
            lemma2_to64();
        }
        while p < max_dim as u64
            invariant
                k <= 32,
                p == pow2(k as nat),
                p <= 0x1_0000_0000,
                k == 0 || pow2((k - 1) as nat) < max_dim,
                1 <= max_dim,
                pow2(32) == 0x1_0000_0000,
            decreases 32 - k,
        {
            proof {
                lemma_pow2_unfold((k + 1) as nat);
                if k >= 32 {
                    assert(false);
                }
                if k + 1 < 32 {
                    lemma_pow2_strictly_increases((k + 1) as nat, 32);
                }
            }
            p = p * 2;
            k += 1;
        }
        Self { width, height, tile_size, overlap: 0, max_level: k }
    }

    /// Pixel dimensions of `level`: the base level is full size and each level
    /// below halves both sides, rounding up, down to at least 1.
    pub fn level_dims(&self, level: u32) -> (r: (u32, u32))
        requires
            level <= self.max_level,
        ensures
            (r.0 as nat, r.1 as nat) == scaled_dims(self.width, self.height, (self.max_level - level) as nat),
    {
        let shift = self.max_level - level;
        let (w, h) = if shift >= 32 {
            proof {
                lemma2_to64();
                if shift > 32 {
                    lemma_pow2_strictly_increases(32, shift as nat);
                }
                let p = pow2(shift as nat);
                assert(ceil_div(self.width as nat, p) <= 1) by (nonlinear_arith)
                    requires
                        p >= 0x1_0000_0000,
                        self.width < 0x1_0000_0000,
                ;
                assert(ceil_div(self.height as nat, p) <= 1) by (nonlinear_arith)
                    requires
                        p >= 0x1_0000_0000,
                        self.height < 0x1_0000_0000,
                ;
            }
            (1u32, 1u32)
        } else {
            (ceil_shift(self.width, shift), ceil_shift(self.height, shift))
        };
        (if w >= 1 { w } else { 1 }, if h >= 1 { h } else { 1 })
    }

    /// `(cols, rows)` of tiles at `level`.
    pub fn level_grid(&self, level: u32) -> (r: (u32, u32))
        requires
            level <= self.max_level,
            self.tile_size > 0,
        ensures
            ({
                let (w, h) = scaled_dims(self.width, self.height, (self.max_level - level) as nat);
                r.0 == ceil_div(w, self.tile_size as nat) && r.1 == ceil_div(h, self.tile_size as nat)
            }),
    {
        let (w, h) = self.level_dims(level);
        (ceil_div_u32(w, self.tile_size), ceil_div_u32(h, self.tile_size))
    }

    /// The OpenSeadragon-compatible descriptor XML.
    pub fn descriptor_xml(&self) -> (r: String)
        ensures
            r@ == "<?xml version=\"1.0\" encoding=\"UTF-8\"?>\n<Image xmlns=\"http://schemas.microsoft.com/deepzoom/2008\" Format=\"png\" Overlap=\""@
                + decimal(self.overlap as nat) + "\" TileSize=\""@ + decimal(self.tile_size as nat)
                + "\">\n  <Size Width=\""@ + decimal(self.width as nat) + "\" Height=\""@
                + decimal(self.height as nat) + "\"/>\n</Image>\n"@,
    {
        let mut s = String::new();
        s.append("<?xml version=\"1.0\" encoding=\"UTF-8\"?>\n<Image xmlns=\"http://schemas.microsoft.com/deepzoom/2008\" Format=\"png\" Overlap=\"");
        s.append(decimal_string(self.overlap as u64).as_str());
        s.append("\" TileSize=\"");
        s.append(decimal_string(self.tile_size as u64).as_str());
        s.append("\">\n  <Size Width=\"");
        s.append(decimal_string(self.width as u64).as_str());
        s.append("\" Height=\"");
        s.append(decimal_string(self.height as u64).as_str());
        s.append("\"/>\n</Image>\n");
        s
    }
}

/// Where one tile of the parent level lands in the double-size canvas of a
/// downscaled tile: its column and row, and its offset in the canvas.
#[derive(Debug, Clone, Copy, PartialEq, Eq, Structural)]
pub struct ParentTile {
    pub col: u32,
    pub row: u32,
    pub dx: i64,
    pub dy: i64,
}

/// How to build one tile of a level from the level above: composite the
/// `parents` into a `2 width × 2 height` canvas, then shrink it to
/// `width × height`.
pub struct DownscalePlan {
    pub width: u32,
    pub height: u32,
    pub parent_level: u32,
    pub parents: Vec<ParentTile>,
}

/// The parent tiles of column `pc` whose rows run from `r0` to `r1`.
pub open spec fn parent_column(pc: int, r0: int, r1: int, ts: int, base_px: int, base_py: int) -> Seq<ParentTile> {
    Seq::new(
        (r1 - r0 + 1) as nat,
        |j: int| ParentTile {
            col: pc as u32,
            row: (r0 + j) as u32,
            dx: (pc * ts - base_px) as i64,
            dy: ((r0 + j) * ts - base_py) as i64,
        },
    )
}

/// The parent tiles of columns `c0..pc`, column by column.
pub open spec fn parents_before(c0: int, pc: int, r0: int, r1: int, ts: int, base_px: int, base_py: int) -> Seq<ParentTile>
    decreases pc - c0,
{
    if pc <= c0 {
        Seq::empty()
    } else {
        parents_before(c0, pc - 1, r0, r1, ts, base_px, base_py) + parent_column(pc - 1, r0, r1, ts, base_px, base_py)
    }
}

/// Side of the tile at index `i` along an axis of length `len`: the tile
/// size, cut short at the edge.
pub open spec fn clipped_side(ts: nat, len: nat, i: nat) -> int {
    let rest = len - i * ts;
    if ts <= rest {
        ts as int
    } else {
        rest
    }
}

/// Whether the arithmetic of downscaling tile `(col, row)` of `level` stays
/// within `u32`.
pub open spec fn downscale_fits(dzi: Dzi, level: u32, col: u32, row: u32) -> bool {
    let ts = dzi.tile_size as nat;
    let (lw, lh) = scaled_dims(dzi.width, dzi.height, (dzi.max_level - level) as nat);
    let tw = clipped_side(ts, lw, col as nat);
    let th = clipped_side(ts, lh, row as nat);
    &&& level <= dzi.max_level
    &&& col * ts <= lw
    &&& row * ts <= lh
    &&& (tw > 0 && th > 0) ==> {
        &&& level < u32::MAX
        &&& 2 * col * ts + 2 * tw <= u32::MAX
        &&& 2 * row * ts + 2 * th <= u32::MAX
    }
}

/// The tile `(col, row)` of `level` as built from the level above: its
/// width, its height and the parent tiles that cover it, column by column;
/// `None` when the tile is empty.
pub open spec fn downscale_spec(dzi: Dzi, level: u32, col: u32, row: u32) -> Option<(int, int, Seq<ParentTile>)> {
    let ts = dzi.tile_size as int;
    let (lw, lh) = scaled_dims(dzi.width, dzi.height, (dzi.max_level - level) as nat);
    let tw = clipped_side(dzi.tile_size as nat, lw, col as nat);
    let th = clipped_side(dzi.tile_size as nat, lh, row as nat);
    if tw == 0 || th == 0 {
        None
    } else {
        let base_px = 2 * col * ts;
        let base_py = 2 * row * ts;
        let c0 = base_px / ts;
        let c1 = (base_px + 2 * tw - 1) / ts;
        let r0 = base_py / ts;
        let r1 = (base_py + 2 * th - 1) / ts;
        Some((tw, th, parents_before(c0, c1 + 1, r0, r1, ts, base_px, base_py)))
    }
}

impl Dzi {
    /// The plan for tile `(col, row)` of `level`, built from the (up to) 2×2
    /// tiles of `level + 1` that cover it; `None` when the tile is empty.
    pub fn downscale_plan(&self, level: u32, col: u32, row: u32) -> (r: Option<DownscalePlan>)
        requires
            downscale_fits(*self, level, col, row),
        ensures
            match downscale_spec(*self, level, col, row) {
                None => r is None,
                Some((tw, th, parents)) => r matches Some(p) && p.width == tw && p.height == th && p.parent_level
                    == level + 1 && p.parents@ == parents,
            },
    {
        let ts = self.tile_size;
        let (lw, lh) = self.level_dims(level);
        let tw = if ts <= lw - col * ts { ts } else { lw - col * ts };
        let th = if ts <= lh - row * ts { ts } else { lh - row * ts };
        if tw == 0 || th == 0 {
            return None;
        }
        let parent = level + 1;
        proof {
            assert(2 * col <= 2 * col * ts) by (nonlinear_arith)
                requires
                    ts >= 1,
            ;
            assert(2 * row <= 2 * row * ts) by (nonlinear_arith)
                requires
                    ts >= 1,
            ;
        }
        let base_px = 2 * col * ts;
        let base_py = 2 * row * ts;
        let c0 = base_px / ts;
        let c1 = (base_px + 2 * tw - 1) / ts;
        let r0 = base_py / ts;
        let r1 = (base_py + 2 * th - 1) / ts;
        proof {
            assert(c0 <= c1) by (nonlinear_arith)
                requires
                    ts > 0,
                    tw > 0,
                    c0 == base_px / ts,
                    c1 == (base_px + 2 * tw - 1) / (ts as int),
            ;
            assert(r0 <= r1) by (nonlinear_arith)
                requires
                    ts > 0,
                    th > 0,
                    r0 == base_py / ts,
                    r1 == (base_py + 2 * th - 1) / (ts as int),
            ;
            assert(c1 * ts <= base_px + 2 * tw - 1) by (nonlinear_arith)
                requires
                    ts > 0,
                    c1 == (base_px + 2 * tw - 1) / (ts as int),
            ;
            assert(r1 * ts <= base_py + 2 * th - 1) by (nonlinear_arith)
                requires
                    ts > 0,
                    r1 == (base_py + 2 * th - 1) / (ts as int),
            ;
            assert(r1 <= r1 * ts) by (nonlinear_arith)
                requires
                    ts > 0,
                    r1 >= 0,
            ;
            assert(c1 <= c1 * ts) by (nonlinear_arith)
                requires
                    ts > 0,
                    c1 >= 0,
            ;
        }
        let mut parents: Vec<ParentTile> = Vec::new();
        let mut pcol = c0;
        while pcol <= c1
            invariant
                c0 <= pcol <= c1 + 1,
                c1 < u32::MAX,
                r1 < u32::MAX,
                r0 <= r1,
                ts > 0,
                c1 * ts <= base_px + 2 * tw - 1,
                r1 * ts <= base_py + 2 * th - 1,
                base_px + 2 * tw <= u32::MAX,
                base_py + 2 * th <= u32::MAX,
                parents@ == parents_before(c0 as int, pcol as int, r0 as int, r1 as int, ts as int, base_px as int, base_py as int),
            decreases c1 + 1 - pcol,
        {
            let ghost before = parents@;
            let mut prow = r0;
            while prow <= r1
                invariant
                    c0 <= pcol <= c1,
                    r0 <= prow <= r1 + 1,
                    r1 < u32::MAX,
                    ts > 0,
                    c1 * ts <= base_px + 2 * tw - 1,
                    r1 * ts <= base_py + 2 * th - 1,
                    base_px + 2 * tw <= u32::MAX,
                    base_py + 2 * th <= u32::MAX,
                    parents@ == before + parent_column(pcol as int, r0 as int, r1 as int, ts as int, base_px as int, base_py as int).subrange(0, prow - r0),
                decreases r1 + 1 - prow,
            {
                proof {
                    assert(pcol * ts <= c1 * ts) by (nonlinear_arith)
                        requires
                            pcol <= c1,
                    ;
                    assert(prow * ts <= r1 * ts) by (nonlinear_arith)
                        requires
                            prow <= r1,
                    ;
                }
                let dx = (pcol * ts) as i64 - base_px as i64;
                let dy = (prow * ts) as i64 - base_py as i64;
                parents.push(ParentTile { col: pcol, row: prow, dx, dy });
                proof {
                    let colv = parent_column(pcol as int, r0 as int, r1 as int, ts as int, base_px as int, base_py as int);
                    assert(colv.subrange(0, prow + 1 - r0) =~= colv.subrange(0, prow - r0).push(colv[prow - r0]));
                    assert(parents@ =~= before + colv.subrange(0, prow + 1 - r0));
                }
                prow += 1;
            }
            proof {
                let colv = parent_column(pcol as int, r0 as int, r1 as int, ts as int, base_px as int, base_py as int);
                assert(colv.subrange(0, r1 + 1 - r0) =~= colv);
            }
            pcol += 1;
        }
        Some(DownscalePlan { width: tw, height: th, parent_level: parent, parents })
    }
}


/// Rounding up twice by halves is rounding up once by the product.
proof fn lemma_ceil_div_twice(a: nat, p: nat)
    requires
        p > 0,
    ensures
        ceil_div(ceil_div(a, p), 2) == ceil_div(a, 2 * p),
{
    let x = (a + p - 1) as int;
    vstd::arithmetic::div_mod::lemma_hoist_over_denominator(x, 1, p);
    assert(x / (p as int) + 1 == (x + p) / (p as int));
    vstd::arithmetic::div_mod::lemma_div_denominator(x + p, p as int, 2);
    assert(((x + p) / (p as int)) / 2 == (x + p) / ((p * 2) as int));
    assert(ceil_div(a, p) == x / (p as int));
    assert(ceil_div(ceil_div(a, p), 2) == (x / (p as int) + 1) / 2);
    assert(p * 2 == 2 * p);
}

/// The base level of a pyramid is the full image (at least 1 × 1).
pub proof fn lemma_base_level_full(width: u32, height: u32)
    ensures
        scaled_dims(width, height, 0) == (max_nat(1, width as nat), max_nat(1, height as nat)),
{
    assert(pow2(0) == 1) by {
        vstd::arithmetic::power2::lemma2_to64();
    }
}

/// Level 0 of a pyramid is a 1 × 1 thumbnail.
pub proof fn lemma_level_zero_thumbnail(d: Dzi)
    requires
        is_ceil_log2(max_nat(max_nat(d.width as nat, d.height as nat), 1), d.max_level as nat),
    ensures
        scaled_dims(d.width, d.height, d.max_level as nat) == (1nat, 1nat),
{
    let p = pow2(d.max_level as nat);
    vstd::arithmetic::power2::lemma_pow2_pos(d.max_level as nat);
    assert(ceil_div(d.width as nat, p) <= 1) by (nonlinear_arith)
        requires
            p > 0,
            d.width <= p,
    ;
    assert(ceil_div(d.height as nat, p) <= 1) by (nonlinear_arith)
        requires
            p > 0,
            d.height <= p,
    ;
}

/// Each level of a pyramid halves the level above it, rounding up, with no
/// side below 1.
pub proof fn lemma_levels_halve(width: u32, height: u32, shift: nat)
    ensures
        ({
            let (w, h) = scaled_dims(width, height, shift);
            scaled_dims(width, height, shift + 1) == (max_nat(1, ceil_div(w, 2)), max_nat(1, ceil_div(h, 2)))
        }),
{
    let p = pow2(shift);
    vstd::arithmetic::power2::lemma_pow2_pos(shift);
    vstd::arithmetic::power2::lemma_pow2_unfold(shift + 1);
    assert(pow2(shift + 1) == 2 * p);
    lemma_ceil_div_twice(width as nat, p);
    lemma_ceil_div_twice(height as nat, p);
    assert(ceil_div(1, 2) == 1);
    assert(ceil_div(0, 2) == 0);
}


/// The parent tiles of columns `c0..pc` number a column's worth per column.
proof fn lemma_parents_len(c0: int, pc: int, r0: int, r1: int, ts: int, base_px: int, base_py: int)
    requires
        c0 <= pc,
        r0 <= r1 + 1,
    ensures
        parents_before(c0, pc, r0, r1, ts, base_px, base_py).len() == (pc - c0) * (r1 - r0 + 1),
    decreases pc - c0,
{
    if pc > c0 {
        lemma_parents_len(c0, pc - 1, r0, r1, ts, base_px, base_py);
        assert((pc - c0) * (r1 - r0 + 1) == (pc - 1 - c0) * (r1 - r0 + 1) + (r1 - r0 + 1)) by (nonlinear_arith);
    } else {
        assert((pc - c0) * (r1 - r0 + 1) == 0) by (nonlinear_arith)
            requires
                pc == c0,
        ;
    }
}

/// A tile with no overlap is built from at most two parent tiles per axis,
/// so from at most four.
pub proof fn lemma_at_most_four_parents(dzi: Dzi, level: u32, col: u32, row: u32)
    requires
        downscale_fits(dzi, level, col, row),
        downscale_spec(dzi, level, col, row) is Some,
    ensures
        downscale_spec(dzi, level, col, row) matches Some((_, _, parents)) && parents.len() <= 4,
{
    let ts = dzi.tile_size as int;
    let (lw, lh) = scaled_dims(dzi.width, dzi.height, (dzi.max_level - level) as nat);
    let tw = clipped_side(dzi.tile_size as nat, lw, col as nat);
    let th = clipped_side(dzi.tile_size as nat, lh, row as nat);
    assert(0 < tw <= ts && 0 < th <= ts);
    let base_px = 2 * col * ts;
    let base_py = 2 * row * ts;
    let c0 = base_px / ts;
    let c1 = (base_px + 2 * tw - 1) / ts;
    let r0 = base_py / ts;
    let r1 = (base_py + 2 * th - 1) / ts;
    assert(c0 == 2 * col && c0 <= c1 <= c0 + 1) by (nonlinear_arith)
        requires
            ts > 0,
            col >= 0,
            0 < tw <= ts,
            base_px == 2 * col * ts,
            c0 == base_px / ts,
            c1 == (base_px + 2 * tw - 1) / ts,
    ;
    assert(r0 == 2 * row && r0 <= r1 <= r0 + 1) by (nonlinear_arith)
        requires
            ts > 0,
            row >= 0,
            0 < th <= ts,
            base_py == 2 * row * ts,
            r0 == base_py / ts,
            r1 == (base_py + 2 * th - 1) / ts,
    ;
    lemma_parents_len(c0, c1 + 1, r0, r1, ts, base_px, base_py);
    assert((c1 + 1 - c0) * (r1 - r0 + 1) <= 4) by (nonlinear_arith)
        requires
            1 <= c1 + 1 - c0 <= 2,
            1 <= r1 - r0 + 1 <= 2,
    ;
}


/// What `image::imageops::overlay` makes of an RGBA canvas `cw × ch` when
/// the RGBA image `top` (`tw × th`) is blended onto it with its top-left
/// corner at `(x, y)`.
pub uninterp spec fn overlaid(canvas: Seq<u8>, cw: u32, ch: u32, top: Seq<u8>, tw: u32, th: u32, x: i64, y: i64) -> Seq<u8>;

/// What `image::imageops::resize` with the triangle filter makes of an RGBA
/// image `w × h` scaled to `nw × nh`.
pub uninterp spec fn resized(px: Seq<u8>, w: u32, h: u32, nw: u32, nh: u32) -> Seq<u8>;

/// Calls `image::imageops::overlay` on the canvas and the top image, both
/// viewed as RGBA buffers of their sizes; the canvas keeps its size.
#[verifier::external_body]
pub(crate) fn overlay_rgba(canvas: Vec<u8>, cw: u32, ch: u32, top: &Vec<u8>, tw: u32, th: u32, x: i64, y: i64) -> (r: Vec<u8>)
    requires
        canvas@.len() == 4 * (cw * ch),
        top@.len() == 4 * (tw * th),
    ensures
        r@ == overlaid(canvas@, cw, ch, top@, tw, th, x, y),
        r@.len() == canvas@.len(),
{
    let mut bottom = image::RgbaImage::from_raw(cw, ch, canvas).unwrap();
    let top = image::ImageBuffer::<image::Rgba<u8>, &[u8]>::from_raw(tw, th, &top[..]).unwrap();
    image::imageops::overlay(&mut bottom, &top, x, y);
    bottom.into_raw()
}

/// Calls `image::imageops::resize` with the triangle filter on an RGBA
/// buffer; the result has the new size.
#[verifier::external_body]
fn resize_rgba(px: &Vec<u8>, w: u32, h: u32, nw: u32, nh: u32) -> (r: Vec<u8>)
    requires
        px@.len() == 4 * (w * h),
        4 * (nw * nh) <= usize::MAX,
    ensures
        r@ == resized(px@, w, h, nw, nh),
        r@.len() == 4 * (nw * nh),
{
    let img = image::ImageBuffer::<image::Rgba<u8>, &[u8]>::from_raw(w, h, &px[..]).unwrap();
    image::imageops::resize(&img, nw, nh, image::imageops::FilterType::Triangle).into_raw()
}

/// The double-size canvas after the first `k` parent tiles are drawn at
/// their offsets, skipping those whose file is missing or not an image, and
/// whether any was drawn.
pub open spec fn composite(parents: Seq<ParentTile>, files: Seq<Option<Vec<u8>>>, cw: u32, ch: u32, k: nat) -> (Seq<u8>, bool)
    decreases k,
{
    if k == 0 {
        (Seq::new(4 * (cw * ch) as nat, |i: int| 0u8), false)
    } else {
        let (c, any) = composite(parents, files, cw, ch, (k - 1) as nat);
        match files[k - 1] {
            None => (c, any),
            Some(v) => match image_rgba(v@) {
                None => (c, any),
                Some((tw, th, px)) => (overlaid(c, cw, ch, px, tw, th, parents[k - 1].dx, parents[k - 1].dy), true),
            },
        }
    }
}

/// The pixels of the tile of `plan`, given the bytes of each parent tile's
/// file (`None` where it could not be read): the parents are drawn into a
/// transparent double-size canvas, which is then shrunk to the tile's size.
/// `None` when no parent could be drawn.
pub fn downscale_pixels(plan: &DownscalePlan, files: &Vec<Option<Vec<u8>>>) -> (r: Option<(u32, u32, Vec<u8>)>)
    requires
        files@.len() == plan.parents@.len(),
        2 * plan.width <= u32::MAX,
        2 * plan.height <= u32::MAX,
        4 * ((2 * plan.width) * (2 * plan.height)) <= usize::MAX,
    ensures
        ({
            let (c, any) = composite(plan.parents@, files@, (2 * plan.width) as u32, (2 * plan.height) as u32, files@.len());
            if any {
                r matches Some((w, h, px)) && w == plan.width && h == plan.height && px@ == resized(
                    c,
                    (2 * plan.width) as u32,
                    (2 * plan.height) as u32,
                    plan.width,
                    plan.height,
                )
            } else {
                r is None
            }
        }),
{
    let cw = 2 * plan.width;
    let ch = 2 * plan.height;
    let n = 4 * (cw as usize * ch as usize);
    let mut canvas = zero_canvas(n);
    let mut any = false;
    let mut i: usize = 0;
    while i < files.len()
        invariant
            i <= files@.len(),
            files@.len() == plan.parents@.len(),
            n == 4 * (cw * ch),
            canvas@.len() == n,
            (canvas@, any) == composite(plan.parents@, files@, cw, ch, i as nat),
        decreases files@.len() - i,
    {
        match &files[i] {
            None => {},
            Some(bytes) => {
                match decode_image(bytes.as_slice()) {
                    None => {},
                    Some((tw, th, px)) => {
                        let p = plan.parents[i];
                        canvas = overlay_rgba(canvas, cw, ch, &px, tw, th, p.dx, p.dy);
                        any = true;
                    },
                }
            },
        }
        i += 1;
    }
    if !any {
        return None;
    }
    proof {
        assert(4 * (plan.width * plan.height) <= 4 * (cw * ch)) by (nonlinear_arith)
            requires
                cw == 2 * plan.width,
                ch == 2 * plan.height,
        ;
    }
    let px = resize_rgba(&canvas, cw, ch, plan.width, plan.height);
    Some((plan.width, plan.height, px))
}


/// `n` zero bytes: a transparent canvas of `n / 4` pixels.
pub(crate) fn zero_canvas(n: usize) -> (r: Vec<u8>)
    ensures
        r@ == Seq::new(n as nat, |i: int| 0u8),
{
    let mut canvas: Vec<u8> = Vec::new();
    while canvas.len() < n
        invariant
            canvas@.len() <= n,
            canvas@ == Seq::new(canvas@.len(), |i: int| 0u8),
        decreases n - canvas@.len(),
    {
        canvas.push(0u8);
        proof {
            assert(canvas@ =~= Seq::new(canvas@.len(), |i: int| 0u8));
        }
    }
    canvas
}


/// The parent tile of column `c` and row `r`, placed by the base.
pub open spec fn parent_at(c: int, r: int, ts: int, base_px: int, base_py: int) -> ParentTile {
    ParentTile { col: c as u32, row: r as u32, dx: (c * ts - base_px) as i64, dy: (r * ts - base_py) as i64 }
}

/// Whether `t` is the parent tile of some column in `c0..pc` and row in
/// `r0..=r1`.
pub open spec fn placed_between(t: ParentTile, c0: int, pc: int, r0: int, r1: int, ts: int, base_px: int, base_py: int) -> bool {
    exists|c: int, r: int| c0 <= c < pc && r0 <= r <= r1 && t == #[trigger] parent_at(c, r, ts, base_px, base_py)
}

/// Each parent tile of columns `c0..pc` and rows `r0..=r1` is placed at its
/// column and row times the tile size, less the base.
proof fn lemma_parents_each(c0: int, pc: int, r0: int, r1: int, ts: int, base_px: int, base_py: int)
    requires
        c0 <= pc,
        r0 <= r1 + 1,
    ensures
        forall|k: int|
            0 <= k < parents_before(c0, pc, r0, r1, ts, base_px, base_py).len() ==> placed_between(
                #[trigger] parents_before(c0, pc, r0, r1, ts, base_px, base_py)[k],
                c0,
                pc,
                r0,
                r1,
                ts,
                base_px,
                base_py,
            ),
    decreases pc - c0,
{
    if pc > c0 {
        lemma_parents_each(c0, pc - 1, r0, r1, ts, base_px, base_py);
        lemma_parents_len(c0, pc - 1, r0, r1, ts, base_px, base_py);
        let before = parents_before(c0, pc - 1, r0, r1, ts, base_px, base_py);
        let column = parent_column(pc - 1, r0, r1, ts, base_px, base_py);
        let all = parents_before(c0, pc, r0, r1, ts, base_px, base_py);
        assert(all == before + column);
        assert forall|k: int| 0 <= k < all.len() implies placed_between(#[trigger] all[k], c0, pc, r0, r1, ts, base_px, base_py) by {
            if k < before.len() {
                assert(all[k] == before[k]);
                assert(placed_between(before[k], c0, pc - 1, r0, r1, ts, base_px, base_py));
                let (c, r) = choose|c: int, r: int|
                    c0 <= c < pc - 1 && r0 <= r <= r1 && before[k] == #[trigger] parent_at(c, r, ts, base_px, base_py);
                assert(c0 <= c < pc && r0 <= r <= r1 && all[k] == parent_at(c, r, ts, base_px, base_py));
            } else {
                let j = k - before.len();
                assert(all[k] == column[j]);
                assert(column[j] == parent_at(pc - 1, r0 + j, ts, base_px, base_py));
                assert(c0 <= pc - 1 < pc && r0 <= r0 + j <= r1);
            }
        }
    }
}

/// The width and height of tile `(col, row)` of `level`.
pub open spec fn plan_size(dzi: Dzi, level: u32, col: u32, row: u32) -> (int, int) {
    match downscale_spec(dzi, level, col, row) {
        Some((tw, th, _)) => (tw, th),
        None => (0, 0),
    }
}

/// The parent tiles of the plan for tile `(col, row)` of `level`.
pub open spec fn plan_parents(dzi: Dzi, level: u32, col: u32, row: u32) -> Seq<ParentTile> {
    match downscale_spec(dzi, level, col, row) {
        Some((_, _, parents)) => parents,
        None => Seq::empty(),
    }
}

/// Every parent tile of a downscaled tile `(col, row)` is one of the tiles
/// `2 col`, `2 col + 1` across and `2 row`, `2 row + 1` down that starts
/// within the double-size canvas, and is placed in it with its top-left
/// corner at its own column times the tile size less `2 col` tiles across,
/// and its own row times the tile size less `2 row` tiles down.
pub proof fn lemma_parent_offsets(dzi: Dzi, level: u32, col: u32, row: u32)
    requires
        downscale_fits(dzi, level, col, row),
        downscale_spec(dzi, level, col, row) is Some,
    ensures
        forall|k: int|
            0 <= k < plan_parents(dzi, level, col, row).len() ==> {
                let t = #[trigger] plan_parents(dzi, level, col, row)[k];
                &&& t.dx == t.col * dzi.tile_size - 2 * col * dzi.tile_size
                &&& t.dy == t.row * dzi.tile_size - 2 * row * dzi.tile_size
                &&& 2 * col <= t.col <= 2 * col + 1
                &&& 2 * row <= t.row <= 2 * row + 1
                &&& t.col * dzi.tile_size < 2 * col * dzi.tile_size + 2 * plan_size(dzi, level, col, row).0
                &&& t.row * dzi.tile_size < 2 * row * dzi.tile_size + 2 * plan_size(dzi, level, col, row).1
            },
{
    let ts = dzi.tile_size as int;
    let (lw, lh) = scaled_dims(dzi.width, dzi.height, (dzi.max_level - level) as nat);
    let tw = clipped_side(dzi.tile_size as nat, lw, col as nat);
    let th = clipped_side(dzi.tile_size as nat, lh, row as nat);
    assert(0 < tw <= ts && 0 < th <= ts);
    let base_px = 2 * col * ts;
    let base_py = 2 * row * ts;
    let c0 = base_px / ts;
    let c1 = (base_px + 2 * tw - 1) / ts;
    let r0 = base_py / ts;
    let r1 = (base_py + 2 * th - 1) / ts;
    assert(c0 == 2 * col && c0 <= c1 <= c0 + 1) by (nonlinear_arith)
        requires
            ts > 0,
            col >= 0,
            0 < tw <= ts,
            base_px == 2 * col * ts,
            c0 == base_px / ts,
            c1 == (base_px + 2 * tw - 1) / ts,
    ;
    assert(r0 == 2 * row && r0 <= r1 <= r0 + 1) by (nonlinear_arith)
        requires
            ts > 0,
            row >= 0,
            0 < th <= ts,
            base_py == 2 * row * ts,
            r0 == base_py / ts,
            r1 == (base_py + 2 * th - 1) / ts,
    ;
    assert(2 * col + 1 <= u32::MAX && 2 * row + 1 <= u32::MAX) by (nonlinear_arith)
        requires
            ts >= 1,
            tw >= 1,
            th >= 1,
            2 * col * ts + 2 * tw <= u32::MAX,
            2 * row * ts + 2 * th <= u32::MAX,
    ;
    lemma_parents_each(c0, c1 + 1, r0, r1, ts, base_px, base_py);
    let parents = parents_before(c0, c1 + 1, r0, r1, ts, base_px, base_py);
    assert forall|k: int| 0 <= k < parents.len() implies {
        let t = #[trigger] parents[k];
        &&& t.dx == t.col * dzi.tile_size - 2 * col * dzi.tile_size
        &&& t.dy == t.row * dzi.tile_size - 2 * row * dzi.tile_size
        &&& 2 * col <= t.col <= 2 * col + 1
        &&& 2 * row <= t.row <= 2 * row + 1
        &&& t.col * dzi.tile_size < 2 * col * dzi.tile_size + 2 * plan_size(dzi, level, col, row).0
        &&& t.row * dzi.tile_size < 2 * row * dzi.tile_size + 2 * plan_size(dzi, level, col, row).1
    } by {
        assert(placed_between(parents[k], c0, c1 + 1, r0, r1, ts, base_px, base_py));
        let (c, r) = choose|c: int, r: int|
            c0 <= c < c1 + 1 && r0 <= r <= r1 && parents[k] == #[trigger] parent_at(c, r, ts, base_px, base_py);
        assert(c * ts <= base_px + 2 * tw - 1) by (nonlinear_arith)
            requires
                ts > 0,
                c <= c1,
                c1 == (base_px + 2 * tw - 1) / ts,
                base_px + 2 * tw - 1 >= 0,
        ;
        assert(r * ts <= base_py + 2 * th - 1) by (nonlinear_arith)
            requires
                ts > 0,
                r <= r1,
                r1 == (base_py + 2 * th - 1) / ts,
                base_py + 2 * th - 1 >= 0,
        ;
        assert(c * ts - base_px == (c - 2 * col) * ts) by (nonlinear_arith)
            requires
                base_px == 2 * col * ts,
        ;
        assert(r * ts - base_py == (r - 2 * row) * ts) by (nonlinear_arith)
            requires
                base_py == 2 * row * ts,
        ;
        assert(0 <= (c - 2 * col) * ts <= ts) by (nonlinear_arith)
            requires
                0 <= c - 2 * col <= 1,
                ts >= 0,
        ;
        assert(0 <= (r - 2 * row) * ts <= ts) by (nonlinear_arith)
            requires
                0 <= r - 2 * row <= 1,
                ts >= 0,
        ;
    }
}

/// Building a coarser tile draws each parent tile that decodes onto the
/// double-size canvas, in turn, with its top-left corner at its column times
/// the tile size less `2 col` tiles across and its row times the tile size
/// less `2 row` tiles down; a parent whose file is missing or does not
/// decode leaves the canvas as it was.
pub proof fn lemma_downscale_places_parents(dzi: Dzi, level: u32, col: u32, row: u32, files: Seq<Option<Vec<u8>>>, k: nat)
    requires
        downscale_fits(dzi, level, col, row),
        downscale_spec(dzi, level, col, row) is Some,
        files.len() == plan_parents(dzi, level, col, row).len(),
        k < files.len(),
    ensures
        ({
            let (tw, th, parents) = downscale_spec(dzi, level, col, row)->0;
            let cw = (2 * tw) as u32;
            let ch = (2 * th) as u32;
            let before = composite(parents, files, cw, ch, k);
            let after = composite(parents, files, cw, ch, k + 1);
            match files[k as int] {
                Some(v) => match image_rgba(v@) {
                    Some((pw, ph, px)) => after == (
                        overlaid(
                            before.0,
                            cw,
                            ch,
                            px,
                            pw,
                            ph,
                            (parents[k as int].col * dzi.tile_size - 2 * col * dzi.tile_size) as i64,
                            (parents[k as int].row * dzi.tile_size - 2 * row * dzi.tile_size) as i64,
                        ),
                        true,
                    ),
                    None => after == before,
                },
                None => after == before,
            }
        }),
{
    lemma_parent_offsets(dzi, level, col, row);
    let parents = plan_parents(dzi, level, col, row);
    let t = parents[k as int];
    assert(t.dx == t.col * dzi.tile_size - 2 * col * dzi.tile_size);
}

} // verus!
