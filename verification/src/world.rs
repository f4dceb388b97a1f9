//! The whole map as one global isometric plane: the cells it is made of, its
//! pixel bounds, and which cells can touch a given output tile.
use vstd::prelude::*;
use std::collections::HashSet;
use crate::header::fits_i32;
use crate::iso_render::project_spec;
use vstd::arithmetic::div_mod::{lemma_div_is_ordered, lemma_div_multiples_vanish, lemma_fundamental_div_mod_converse};
use crate::text::{decimal, digit_char, first_index, is_first_index};
use vstd::string::StringExecFns;
use vstd::utf8::{encode_utf8, is_ascii_chars, is_ascii_chars_encode_utf8};
use vstd::string::StringSliceAdditionalSpecFns;

verus! {

broadcast use vstd::std_specs::hash::group_hash_axioms;

/// Squares along the edge of a cell.
pub const CELL_SQUARES: i32 = 256;

/// Pixel padding around the map bounds, so that tall sprites anchored just
/// outside the square grid still have room.
pub const SPRITE_MARGIN: i32 = 1024;

/// The key under which cell `(x, y)` is stored in the set of present cells.
pub open spec fn cell_key(x: u32, y: u32) -> u64 {
    (x as int * 0x1_0000_0000 + y as int) as u64
}

pub(crate) fn cell_key_exec(x: u32, y: u32) -> (r: u64)
    ensures
        r == cell_key(x, y),
{
    x as u64 * 0x1_0000_0000 + y as u64
}

proof fn lemma_cell_key_injective(x1: u32, y1: u32, x2: u32, y2: u32)
    requires
        cell_key(x1, y1) == cell_key(x2, y2),
    ensures
        x1 == x2,
        y1 == y2,
{
}

/// `(v as i32)`: a `u32` reinterpreted as a two's-complement `i32`.
pub open spec fn signed(v: u32) -> int {
    if v < 0x8000_0000 {
        v as int
    } else {
        v - 0x1_0000_0000
    }
}

pub(crate) fn signed_exec(v: u32) -> (r: i32)
    ensures
        r == signed(v),
{
    if v < 0x8000_0000 {
        v as i32
    } else {
        ((v - 0x8000_0000) as i32) - 0x7fff_ffff - 1
    }
}

/// The plane geometry of a map whose cells span `[min_cx, max_cx] ×
/// [min_cy, max_cy]`, composited from level `z_lo` up to `z_hi`:
/// `(origin_x, origin_y, width, height)`, or `None` when an intermediate
/// value leaves `i32`.
pub open spec fn world_geometry(min_cx: u32, min_cy: u32, max_cx: u32, max_cy: u32, z_lo: i32, z_hi: i32) -> Option<(i32, i32, u32, u32)> {
    let a = signed(min_cx);
    let b = signed(max_cx);
    let c = signed(min_cy);
    let d = signed(max_cy);
    let gx_min = a * 256;
    let gx_max = (b + 1) * 256 - 1;
    let gy_min = c * 256;
    let gy_max = (d + 1) * 256 - 1;
    let sx_min = (gx_min - gy_max) * 64;
    let sx_max = (gx_max - gy_min) * 64;
    let sy_min = (gx_min + gy_min) * 32 - z_hi * 192;
    let sy_max = (gx_max + gy_max) * 32 - z_lo * 192;
    if fits_i32(gx_min) && fits_i32(b + 1) && fits_i32((b + 1) * 256) && fits_i32(gx_max) && fits_i32(gy_min)
        && fits_i32(d + 1) && fits_i32((d + 1) * 256) && fits_i32(gy_max) && fits_i32(gx_min - gy_max)
        && fits_i32(sx_min) && fits_i32(gx_max - gy_min) && fits_i32(sx_max) && fits_i32(gx_min + gy_min)
        && fits_i32((gx_min + gy_min) * 32) && fits_i32(z_hi * 192) && fits_i32(sy_min) && fits_i32(gx_max + gy_max)
        && fits_i32((gx_max + gy_max) * 32) && fits_i32(z_lo * 192) && fits_i32(sy_max) && fits_i32(sx_min - 1024)
        && fits_i32(sy_min - 1024) && fits_i32(sx_max - sx_min) && fits_i32(sx_max - sx_min + 2048)
        && fits_i32(sy_max - sy_min) && fits_i32(sy_max - sy_min + 2048) {
        Some(((sx_min - 1024) as i32, (sy_min - 1024) as i32, (sx_max - sx_min + 2048) as u32, (sy_max - sy_min + 2048) as u32))
    } else {
        None
    }
}

/// Whether `m` is the least first coordinate of the cells.
pub open spec fn is_min_x(cells: Seq<(u32, u32)>, m: u32) -> bool {
    (exists|i: int| 0 <= i < cells.len() && cells[i].0 == m) && forall|i: int| 0 <= i < cells.len() ==> m <= cells[i].0
}

pub open spec fn is_max_x(cells: Seq<(u32, u32)>, m: u32) -> bool {
    (exists|i: int| 0 <= i < cells.len() && cells[i].0 == m) && forall|i: int| 0 <= i < cells.len() ==> m >= cells[i].0
}

pub open spec fn is_min_y(cells: Seq<(u32, u32)>, m: u32) -> bool {
    (exists|i: int| 0 <= i < cells.len() && cells[i].1 == m) && forall|i: int| 0 <= i < cells.len() ==> m <= cells[i].1
}

pub open spec fn is_max_y(cells: Seq<(u32, u32)>, m: u32) -> bool {
    (exists|i: int| 0 <= i < cells.len() && cells[i].1 == m) && forall|i: int| 0 <= i < cells.len() ==> m >= cells[i].1
}


/// The least and greatest coordinates of a non-empty list of cells are unique.
proof fn lemma_extremes_unique(cells: Seq<(u32, u32)>, a: u32, b: u32)
    ensures
        is_min_x(cells, a) && is_min_x(cells, b) ==> a == b,
        is_max_x(cells, a) && is_max_x(cells, b) ==> a == b,
        is_min_y(cells, a) && is_min_y(cells, b) ==> a == b,
        is_max_y(cells, a) && is_max_y(cells, b) ==> a == b,
{
}

fn checked_add(a: i32, b: i32) -> (r: Option<i32>)
    ensures
        match r {
            Some(v) => fits_i32(a + b) && v == a + b,
            None => !fits_i32(a + b),
        },
{
    a.checked_add(b)
}

fn checked_sub(a: i32, b: i32) -> (r: Option<i32>)
    ensures
        match r {
            Some(v) => fits_i32(a - b) && v == a - b,
            None => !fits_i32(a - b),
        },
{
    a.checked_sub(b)
}

fn checked_mul(a: i32, b: i32) -> (r: Option<i32>)
    ensures
        match r {
            Some(v) => fits_i32(a * b) && v == a * b,
            None => !fits_i32(a * b),
        },
{
    a.checked_mul(b)
}


/// `a` divided by `d > 0`, rounding toward negative infinity (`div_euclid`).
fn floor_div(a: i32, d: i32) -> (r: i32)
    requires
        d > 0,
    ensures
        r == a / d,
{
    assert(i32::MIN <= a / d <= i32::MAX) by (nonlinear_arith)
        requires
            d >= 1,
            i32::MIN <= a <= i32::MAX,
    ;
    match a.checked_div_euclid(d) {
        Some(q) => q,
        None => 0,
    }
}


fn draw_before_exec(a: (u32, u32), b: (u32, u32)) -> (r: bool)
    ensures
        r == draw_before(a, b),
{
    let sa = a.0 as u64 + a.1 as u64;
    let sb = b.0 as u64 + b.1 as u64;
    sa < sb || (sa == sb && a.0 < b.0)
}

/// The cells in back-to-front order.
fn sort_back_to_front(v: &Vec<(u32, u32)>) -> (r: Vec<(u32, u32)>)
    requires
        v@.no_duplicates(),
    ensures
        forall|c: (u32, u32)| r@.contains(c) <==> v@.contains(c),
        back_to_front(r@),
{
    let mut out: Vec<(u32, u32)> = Vec::new();
    let mut i: usize = 0;
    while i < v.len()
        invariant
            i <= v@.len(),
            v@.no_duplicates(),
            back_to_front(out@),
            forall|c: (u32, u32)| out@.contains(c) <==> exists|j: int| 0 <= j < i && v@[j] == c,
        decreases v@.len() - i,
    {
        let x = v[i];
        proof {
            if out@.contains(x) {
                let j = choose|j: int| 0 <= j < i && v@[j] == x;
                assert(v@[j] == v@[i as int]);
            }
        }
        let mut p: usize = 0;
        while p < out.len() && draw_before_exec(out[p], x)
            invariant
                p <= out@.len(),
                forall|q: int| 0 <= q < p ==> draw_before(#[trigger] out@[q], x),
            decreases out@.len() - p,
        {
            p += 1;
        }
        let ghost old_out = out@;
        out.insert(p, x);
        proof {
            old_out.insert_ensures(p as int, x);
            assert(!old_out.contains(x));
            if p < old_out.len() {
                assert(old_out[p as int] != x);
                assert(!draw_before(old_out[p as int], x));
                assert(draw_before(x, old_out[p as int]));
            }
            assert forall|a: int, b: int| 0 <= a < b < out@.len() implies draw_before(#[trigger] out@[a], #[trigger] out@[b]) by {
                if b < p {
                    assert(out@[a] == old_out[a] && out@[b] == old_out[b]);
                } else if b == p {
                    assert(out@[a] == old_out[a]);
                } else if a < p {
                    assert(out@[a] == old_out[a] && out@[b] == old_out[b - 1]);
                    assert(draw_before(x, old_out[p as int]));
                    if b - 1 > p {
                        assert(draw_before(old_out[p as int], old_out[b - 1]));
                    }
                } else if a == p {
                    assert(out@[b] == old_out[b - 1]);
                    if b - 1 > p {
                        assert(draw_before(old_out[p as int], old_out[b - 1]));
                    }
                } else {
                    assert(out@[a] == old_out[a - 1] && out@[b] == old_out[b - 1]);
                }
            }
            assert forall|c: (u32, u32)| out@.contains(c) <==> exists|j: int| 0 <= j < i + 1 && v@[j] == c by {
                if out@.contains(c) {
                    let k = choose|k: int| 0 <= k < out@.len() && out@[k] == c;
                    if k < p {
                        assert(old_out[k] == c);
                        assert(old_out.contains(c));
                    } else if k > p {
                        assert(old_out[k - 1] == c);
                        assert(old_out.contains(c));
                    } else {
                        assert(v@[i as int] == c);
                    }
                }
                if exists|j: int| 0 <= j < i + 1 && v@[j] == c {
                    let j = choose|j: int| 0 <= j < i + 1 && v@[j] == c;
                    if j == i {
                        assert(out@[p as int] == c);
                    } else {
                        assert(old_out.contains(c));
                        let k = choose|k: int| 0 <= k < old_out.len() && old_out[k] == c;
                        if k < p {
                            assert(out@[k] == c);
                        } else {
                            assert(out@[k + 1] == c);
                        }
                    }
                }
            }
        }
        i += 1;
    }
    proof {
        assert forall|c: (u32, u32)| out@.contains(c) <==> v@.contains(c) by {
            if v@.contains(c) {
                let j = choose|j: int| 0 <= j < v@.len() && v@[j] == c;
                assert(exists|j2: int| 0 <= j2 < i && v@[j2] == c);
            }
        }
    }
    out
}

/// Computes `world_geometry`.
fn geometry(min_cx: u32, min_cy: u32, max_cx: u32, max_cy: u32, z_lo: i32, z_hi: i32) -> (r: Option<(i32, i32, u32, u32)>)
    ensures
        r == world_geometry(min_cx, min_cy, max_cx, max_cy, z_lo, z_hi),
{
    let a = signed_exec(min_cx);
    let b = signed_exec(max_cx);
    let c = signed_exec(min_cy);
    let d = signed_exec(max_cy);
    let gx_min = match checked_mul(a, CELL_SQUARES) { Some(v) => v, None => return None };
    let b1 = match checked_add(b, 1) { Some(v) => v, None => return None };
    let b2 = match checked_mul(b1, CELL_SQUARES) { Some(v) => v, None => return None };
    let gx_max = match checked_sub(b2, 1) { Some(v) => v, None => return None };
    let gy_min = match checked_mul(c, CELL_SQUARES) { Some(v) => v, None => return None };
    let d1 = match checked_add(d, 1) { Some(v) => v, None => return None };
    let d2 = match checked_mul(d1, CELL_SQUARES) { Some(v) => v, None => return None };
    let gy_max = match checked_sub(d2, 1) { Some(v) => v, None => return None };
    let u0 = match checked_sub(gx_min, gy_max) { Some(v) => v, None => return None };
    let sx_min = match checked_mul(u0, 64) { Some(v) => v, None => return None };
    let u1 = match checked_sub(gx_max, gy_min) { Some(v) => v, None => return None };
    let sx_max = match checked_mul(u1, 64) { Some(v) => v, None => return None };
    let v0 = match checked_add(gx_min, gy_min) { Some(v) => v, None => return None };
    let v0s = match checked_mul(v0, 32) { Some(v) => v, None => return None };
    let zh = match checked_mul(z_hi, 192) { Some(v) => v, None => return None };
    let sy_min = match checked_sub(v0s, zh) { Some(v) => v, None => return None };
    let v1 = match checked_add(gx_max, gy_max) { Some(v) => v, None => return None };
    let v1s = match checked_mul(v1, 32) { Some(v) => v, None => return None };
    let zl = match checked_mul(z_lo, 192) { Some(v) => v, None => return None };
    let sy_max = match checked_sub(v1s, zl) { Some(v) => v, None => return None };
    let origin_x = match checked_sub(sx_min, SPRITE_MARGIN) { Some(v) => v, None => return None };
    let origin_y = match checked_sub(sy_min, SPRITE_MARGIN) { Some(v) => v, None => return None };
    let wd = match checked_sub(sx_max, sx_min) { Some(v) => v, None => return None };
    let w = match checked_add(wd, 2 * SPRITE_MARGIN) { Some(v) => v, None => return None };
    let hd = match checked_sub(sy_max, sy_min) { Some(v) => v, None => return None };
    let h = match checked_add(hd, 2 * SPRITE_MARGIN) { Some(v) => v, None => return None };
    Some((origin_x, origin_y, w as u32, h as u32))
}


/// Whether `a` comes before `b` when cells are drawn back to front: by
/// `x + y`, then by `x`.
pub open spec fn draw_before(a: (u32, u32), b: (u32, u32)) -> bool {
    a.0 + a.1 < b.0 + b.1 || (a.0 + a.1 == b.0 + b.1 && a.0 < b.0)
}

/// Whether the cells are in strict back-to-front order.
pub open spec fn back_to_front(v: Seq<(u32, u32)>) -> bool {
    forall|i: int, j: int| 0 <= i < j < v.len() ==> draw_before(#[trigger] v[i], #[trigger] v[j])
}

/// Whether the sort key `(x + y, x)` of every cell fits in `u32`.
pub open spec fn keys_fit(v: Seq<(u32, u32)>) -> bool {
    forall|i: int| 0 <= i < v.len() ==> (#[trigger] v[i]).0 + v[i].1 <= u32::MAX
}

/// The range of cells `(cx_lo, cx_hi, cy_lo, cy_hi)` whose sprites can touch
/// the `view_w × view_h` pixel rectangle at `(cam_x, cam_y)`, or `None` when
/// the arithmetic leaves `i32`. The rectangle is padded by `SPRITE_MARGIN`,
/// the projection is inverted at its corners over the lowest and highest
/// layer, and the range is clipped to the map's cell bounds.
pub open spec fn cover_range(w: WorldView, cam_x: i32, cam_y: i32, view_w: u32, view_h: u32) -> Option<(int, int, int, int)> {
    let z_lo = w.layers[0] as int;
    let z_hi = w.layers.last() as int;
    let vw = signed(view_w);
    let vh = signed(view_h);
    let px_lo = cam_x - 1024;
    let px_hi = cam_x + vw + 1024;
    let py_lo = cam_y - 1024;
    let py_hi = cam_y + vh + 1024;
    let u_lo = px_lo / 64;
    let u_hi = px_hi / 64;
    let v_lo = (py_lo + z_lo * 192) / 32;
    let v_hi = (py_hi + z_hi * 192) / 32;
    let gx_lo = (u_lo + v_lo) / 2;
    let gx_hi = (u_hi + v_hi) / 2;
    let gy_lo = (v_lo - u_hi) / 2;
    let gy_hi = (v_hi - u_lo) / 2;
    let a = gx_lo / 256;
    let b = gx_hi / 256;
    let c = gy_lo / 256;
    let d = gy_hi / 256;
    let mx0 = signed(w.min_cell.0);
    let mx1 = signed(w.max_cell.0);
    let my0 = signed(w.min_cell.1);
    let my1 = signed(w.max_cell.1);
    if fits_i32(px_lo) && fits_i32(cam_x + vw) && fits_i32(px_hi) && fits_i32(py_lo) && fits_i32(cam_y + vh)
        && fits_i32(py_hi) && fits_i32(z_lo * 192) && fits_i32(py_lo + z_lo * 192) && fits_i32(z_hi * 192)
        && fits_i32(py_hi + z_hi * 192) {
        Some((
            if a >= mx0 { a } else { mx0 },
            if b <= mx1 { b } else { mx1 },
            if c >= my0 { c } else { my0 },
            if d <= my1 { d } else { my1 },
        ))
    } else {
        None
    }
}

/// The cell at `i32` coordinates `(x, y)`, taken as `u32`.
pub open spec fn cell_of(x: int, y: int) -> (u32, u32) {
    (unsigned(x), unsigned(y))
}

/// `(v as u32)` for `v` in the range of `i32`: the two's-complement bits.
pub open spec fn unsigned(v: int) -> u32 {
    if v >= 0 {
        v as u32
    } else {
        (v + 0x1_0000_0000) as u32
    }
}

proof fn lemma_unsigned_injective(a: int, b: int)
    requires
        fits_i32(a),
        fits_i32(b),
        unsigned(a) == unsigned(b),
    ensures
        a == b,
{
}

fn unsigned_exec(v: i32) -> (r: u32)
    ensures
        r == unsigned(v as int),
{
    if v >= 0 {
        v as u32
    } else {
        (v as i64 + 0x1_0000_0000) as u32
    }
}

/// Whether cell `c` is a present cell of the range `(cx_lo, cx_hi, cy_lo, cy_hi)`,
/// the range's `i32` coordinates taken as `u32`.
pub open spec fn in_cover(w: WorldView, range: (int, int, int, int), c: (u32, u32)) -> bool {
    &&& exists|x: int, y: int| range.0 <= x <= range.1 && range.2 <= y <= range.3 && c == cell_of(x, y)
    &&& w.cells.contains(c)
}

/// The edge of the output tile `(col, row)` clipped to a plane side of
/// `side` pixels, when the tile starts at pixel `start` of that side.
pub open spec fn clipped(tile_size: u32, side: u32, start: int) -> int {
    if tile_size <= side - start { tile_size as int } else { side - start }
}

/// Whether the tile at grid `(col, row)` starts inside the plane and, when it
/// has pixels, its top-left plane position fits in `i32`.
pub open spec fn tile_in_plane(w: WorldView, col: u32, row: u32, tile_size: u32) -> bool {
    let px = col * tile_size;
    let py = row * tile_size;
    &&& px <= w.width
    &&& py <= w.height
    &&& (clipped(tile_size, w.width, px) > 0 && clipped(tile_size, w.height, py) > 0) ==> {
        &&& fits_i32(w.origin_x + signed(px as u32))
        &&& fits_i32(w.origin_y + signed(py as u32))
    }
}

/// The pixel rectangle `(cam_x, cam_y, width, height)` of the output tile at
/// grid `(col, row)`: its top-left pixel `(col, row) * tile_size` moved by the
/// plane origin, and its edges clipped to the plane; `None` when one edge is
/// empty.
pub open spec fn tile_view_spec(w: WorldView, col: u32, row: u32, tile_size: u32) -> Option<(i32, i32, u32, u32)> {
    let px = col * tile_size;
    let py = row * tile_size;
    let tw = clipped(tile_size, w.width, px);
    let th = clipped(tile_size, w.height, py);
    if tw == 0 || th == 0 {
        None
    } else {
        Some(((w.origin_x + signed(px as u32)) as i32, (w.origin_y + signed(py as u32)) as i32, tw as u32, th as u32))
    }
}

/// The mathematical value of a [`World`].
pub struct WorldView {
    pub cells: Set<(u32, u32)>,
    pub min_cell: (u32, u32),
    pub max_cell: (u32, u32),
    pub layers: Seq<i32>,
    pub origin_x: i32,
    pub origin_y: i32,
    pub width: u32,
    pub height: u32,
}

/// A whole map as one global isometric plane.
pub struct World {
    present: HashSet<u64>,
    min_cell: (u32, u32),
    max_cell: (u32, u32),
    /// z-layers to composite, drawn in this order.
    layers: Vec<i32>,
    /// Pixel `(0, 0)` of the plane is global iso coordinate `(origin_x, origin_y)`.
    origin_x: i32,
    origin_y: i32,
    width: u32,
    height: u32,
}

impl View for World {
    type V = WorldView;

    closed spec fn view(&self) -> WorldView {
        WorldView {
            cells: Set::new(|c: (u32, u32)| self.present@.contains(cell_key(c.0, c.1))),
            min_cell: self.min_cell,
            max_cell: self.max_cell,
            layers: self.layers@,
            origin_x: self.origin_x,
            origin_y: self.origin_y,
            width: self.width,
            height: self.height,
        }
    }
}

impl World {
    /// Every stored key is the key of a cell, and there is a layer.
    #[verifier::type_invariant]
    closed spec fn wf(&self) -> bool {
        &&& self.layers@.len() > 0
        &&& self.present@.finite()
        &&& forall|k: u64| self.present@.contains(k) ==> exists|c: (u32, u32)| cell_key(c.0, c.1) == k
    }


    pub fn width(&self) -> (r: u32)
        ensures
            r == self@.width,
    {
        self.width
    }

    pub fn height(&self) -> (r: u32)
        ensures
            r == self@.height,
    {
        self.height
    }

    /// The number of cells of the map.
    pub fn cell_count(&self) -> (r: usize)
        ensures
            self@.cells.finite(),
            r == self@.cells.len(),
    {
        proof {
            use_type_invariant(self);
            let decode = |k: u64| ((k / 0x1_0000_0000) as u32, (k % 0x1_0000_0000) as u32);
            assert forall|c: (u32, u32)| #[trigger] self.present@.map(decode).contains(c) == self@.cells.contains(c) by {
                if self@.cells.contains(c) {
                    assert(decode(cell_key(c.0, c.1)) == c);
                    assert(self.present@.contains(cell_key(c.0, c.1)));
                }
                if self.present@.map(decode).contains(c) {
                    let k = choose|k: u64| self.present@.contains(k) && decode(k) == c;
                    let c2 = choose|c2: (u32, u32)| cell_key(c2.0, c2.1) == k;
                    assert(decode(cell_key(c2.0, c2.1)) == c2);
                }
            }
            assert(self.present@.map(decode) =~= self@.cells);
            assert forall|k1: u64, k2: u64| self.present@.contains(k1) && self.present@.contains(k2) && #[trigger] decode(k1) == #[trigger] decode(k2) implies k1 == k2 by {
                let c1 = choose|c: (u32, u32)| cell_key(c.0, c.1) == k1;
                let c2 = choose|c: (u32, u32)| cell_key(c.0, c.1) == k2;
                assert(decode(cell_key(c1.0, c1.1)) == c1);
                assert(decode(cell_key(c2.0, c2.1)) == c2);
            }
            vstd::set_lib::lemma_map_size(self.present@, self@.cells, decode);
        }
        self.present.len()
    }

    /// The plane position `(origin_x, origin_y)` of pixel `(0, 0)`.
    pub fn origin(&self) -> (r: (i32, i32))
        ensures
            r == (self@.origin_x, self@.origin_y),
    {
        (self.origin_x, self.origin_y)
    }

    /// The least and greatest cell coordinates.
    pub fn cell_bounds(&self) -> (r: ((u32, u32), (u32, u32)))
        ensures
            r == (self@.min_cell, self@.max_cell),
    {
        (self.min_cell, self.max_cell)
    }

    /// Whether cell `(x, y)` is part of the map.
    fn has_cell(&self, x: u32, y: u32) -> (r: bool)
        ensures
            r == self@.cells.contains((x, y)),
    {
        self.present.contains(&cell_key_exec(x, y))
    }

    /// Computes `cover_range`.
    fn cover(&self, cam_x: i32, cam_y: i32, view_w: u32, view_h: u32) -> (r: Option<(i32, i32, i32, i32)>)
        ensures
            match cover_range(self@, cam_x, cam_y, view_w, view_h) {
                Some(rg) => r matches Some(v) && (v.0 as int, v.1 as int, v.2 as int, v.3 as int) == rg,
                None => r is None,
            },
    {
        proof {
            use_type_invariant(self);
        }
        let z_lo = self.layers[0];
        let z_hi = self.layers[self.layers.len() - 1];
        let vw = signed_exec(view_w);
        let vh = signed_exec(view_h);
        let px_lo = match checked_sub(cam_x, SPRITE_MARGIN) { Some(v) => v, None => return None };
        let t0 = match checked_add(cam_x, vw) { Some(v) => v, None => return None };
        let px_hi = match checked_add(t0, SPRITE_MARGIN) { Some(v) => v, None => return None };
        let py_lo = match checked_sub(cam_y, SPRITE_MARGIN) { Some(v) => v, None => return None };
        let t1 = match checked_add(cam_y, vh) { Some(v) => v, None => return None };
        let py_hi = match checked_add(t1, SPRITE_MARGIN) { Some(v) => v, None => return None };
        let zl = match checked_mul(z_lo, 192) { Some(v) => v, None => return None };
        let a0 = match checked_add(py_lo, zl) { Some(v) => v, None => return None };
        let zh = match checked_mul(z_hi, 192) { Some(v) => v, None => return None };
        let a1 = match checked_add(py_hi, zh) { Some(v) => v, None => return None };
        let u_lo = floor_div(px_lo, 64);
        let u_hi = floor_div(px_hi, 64);
        let v_lo = floor_div(a0, 32);
        let v_hi = floor_div(a1, 32);
        let gx_lo = floor_div(u_lo + v_lo, 2);
        let gx_hi = floor_div(u_hi + v_hi, 2);
        let gy_lo = floor_div(v_lo - u_hi, 2);
        let gy_hi = floor_div(v_hi - u_lo, 2);
        let a = floor_div(gx_lo, CELL_SQUARES);
        let b = floor_div(gx_hi, CELL_SQUARES);
        let c = floor_div(gy_lo, CELL_SQUARES);
        let d = floor_div(gy_hi, CELL_SQUARES);
        let mx0 = signed_exec(self.min_cell.0);
        let mx1 = signed_exec(self.max_cell.0);
        let my0 = signed_exec(self.min_cell.1);
        let my1 = signed_exec(self.max_cell.1);
        Some((
            if a >= mx0 { a } else { mx0 },
            if b <= mx1 { b } else { mx1 },
            if c >= my0 { c } else { my0 },
            if d <= my1 { d } else { my1 },
        ))
    }

    /// The present cells whose sprites can touch the `view_w × view_h` pixel
    /// rectangle at global iso position `(cam_x, cam_y)`, in back-to-front
    /// order. `None` when the arithmetic leaves `i32`, or when two or more
    /// cells are found and a sort key `x + y` leaves `u32`.
    pub fn overlapping_cells(&self, cam_x: i32, cam_y: i32, view_w: u32, view_h: u32) -> (r: Option<Vec<(u32, u32)>>)
        ensures
            match cover_range(self@, cam_x, cam_y, view_w, view_h) {
                None => r is None,
                Some(range) => match r {
                    Some(v) => {
                        &&& forall|c: (u32, u32)| v@.contains(c) <==> in_cover(self@, range, c)
                        &&& back_to_front(v@)
                        &&& (v@.len() >= 2 ==> keys_fit(v@))
                    },
                    None => exists|s: Seq<(u32, u32)>| {
                        &&& s.len() >= 2
                        &&& s.no_duplicates()
                        &&& forall|c: (u32, u32)| s.contains(c) <==> in_cover(self@, range, c)
                        &&& !keys_fit(s)
                    },
                },
            },
    {
        let (x0, x1, y0, y1) = match self.cover(cam_x, cam_y, view_w, view_h) {
            Some(v) => v,
            None => return None,
        };
        let ghost range = (x0 as int, x1 as int, y0 as int, y1 as int);
        let mut cells: Vec<(u32, u32)> = Vec::new();
        let mut cx: i64 = x0 as i64;
        while cx <= x1 as i64
            invariant
                x0 <= cx <= x1 as i64 + 1 || cx == x0,
                range == (x0 as int, x1 as int, y0 as int, y1 as int),
                cells@.no_duplicates(),
                forall|c: (u32, u32)| cells@.contains(c) <==> (
                    (exists|x: int, y: int| x0 <= x < cx && y0 <= y <= y1 && c == cell_of(x, y))
                    && self@.cells.contains(c)
                ),
            decreases x1 as i64 + 1 - cx,
        {
            let mut cy: i64 = y0 as i64;
            let ghost before = cells@;
            while cy <= y1 as i64
                invariant
                    x0 <= cx <= x1,
                    y0 <= cy <= y1 as i64 + 1 || cy == y0,
                    cells@.no_duplicates(),
                    forall|c: (u32, u32)| cells@.contains(c) <==> (
                        ((exists|x: int, y: int| x0 <= x < cx && y0 <= y <= y1 && c == cell_of(x, y))
                        || (exists|y: int| y0 <= y < cy && c == cell_of(cx as int, y)))
                        && self@.cells.contains(c)
                    ),
                decreases y1 as i64 + 1 - cy,
            {
                let c = (unsigned_exec(cx as i32), unsigned_exec(cy as i32));
                let ghost old_cells = cells@;
                assert(c == cell_of(cx as int, cy as int));
                let present = self.has_cell(c.0, c.1);
                if present {
                    proof {
                        if old_cells.contains(c) {
                            if exists|x: int, y: int| x0 <= x < cx && y0 <= y <= y1 && c == cell_of(x, y) {
                                let (x, y) = choose|x: int, y: int| x0 <= x < cx && y0 <= y <= y1 && c == cell_of(x, y);
                                lemma_unsigned_injective(x, cx as int);
                            } else {
                                let y = choose|y: int| y0 <= y < cy && c == cell_of(cx as int, y);
                                lemma_unsigned_injective(y, cy as int);
                            }
                        }
                    }
                    cells.push(c);
                }
                proof {
                    assert forall|c2: (u32, u32)| cells@.contains(c2) <==> (
                        ((exists|x: int, y: int| x0 <= x < cx && y0 <= y <= y1 && c2 == cell_of(x, y))
                        || (exists|y: int| y0 <= y < cy + 1 && c2 == cell_of(cx as int, y)))
                        && self@.cells.contains(c2)
                    ) by {
                        if cells@.contains(c2) {
                            if present && c2 == c {
                                assert(c2 == cell_of(cx as int, cy as int));
                            } else {
                                assert(old_cells.contains(c2));
                            }
                        }
                        if (exists|y: int| y0 <= y < cy + 1 && c2 == cell_of(cx as int, y)) && self@.cells.contains(c2) {
                            let y = choose|y: int| y0 <= y < cy + 1 && c2 == cell_of(cx as int, y);
                            if y == cy {
                                assert(c2 == c);
                                assert(present);
                                assert(cells@[cells@.len() - 1] == c2);
                            }
                        }
                        if present {
                            assert(cells@ == old_cells.push(c));
                            if old_cells.contains(c2) {
                                let i = choose|i: int| 0 <= i < old_cells.len() && old_cells[i] == c2;
                                assert(cells@[i] == c2);
                            }
                        }
                    }
                }
                cy += 1;
            }
            cx += 1;
        }
        let n = cells.len();
        assert(forall|c: (u32, u32)| cells@.contains(c) <==> in_cover(self@, range, c));
        assert(cover_range(self@, cam_x, cam_y, view_w, view_h) == Some(range));
        if n >= 2 {
            let mut k: usize = 0;
            while k < n
                invariant
                    k <= n,
                    n == cells@.len(),
                    n >= 2,
                    cover_range(self@, cam_x, cam_y, view_w, view_h) == Some(range),
                    cells@.no_duplicates(),
                    forall|c: (u32, u32)| cells@.contains(c) <==> in_cover(self@, range, c),
                    forall|j: int| 0 <= j < k ==> (#[trigger] cells@[j]).0 + cells@[j].1 <= u32::MAX,
                decreases n - k,
            {
                if cells[k].0 as u64 + cells[k].1 as u64 > u32::MAX as u64 {
                    proof {
                        assert(!keys_fit(cells@));
                    }
                    return None;
                }
                k += 1;
            }
        }
        let sorted = sort_back_to_front(&cells);
        proof {
            if sorted@.len() >= 2 {
                assert forall|j: int| 0 <= j < sorted@.len() implies (#[trigger] sorted@[j]).0 + sorted@[j].1 <= u32::MAX by {
                    assert(cells@.contains(sorted@[j]));
                    let m = choose|m: int| 0 <= m < cells@.len() && cells@[m] == sorted@[j];
                    if cells@.len() < 2 {
                        assert(sorted@.contains(sorted@[0]) && sorted@.contains(sorted@[1]));
                        assert(cells@.contains(sorted@[0]) && cells@.contains(sorted@[1]));
                        assert(sorted@[0] != sorted@[1]);
                    }
                }
            }
        }
        Some(sorted)
    }

    /// The pixel rectangle of the output tile at grid `(col, row)` of edge
    /// `tile_size`: `(cam_x, cam_y, width, height)`, where the plane position
    /// of its top-left pixel is `(cam_x, cam_y)` and edge tiles are clipped to
    /// the plane. `None` for a tile of no pixels.
    pub fn tile_view(&self, col: u32, row: u32, tile_size: u32) -> (r: Option<(i32, i32, u32, u32)>)
        requires
            tile_in_plane(self@, col, row, tile_size),
        ensures
            r == tile_view_spec(self@, col, row, tile_size),
    {
        let px = col * tile_size;
        let py = row * tile_size;
        let tw = if tile_size <= self.width - px { tile_size } else { self.width - px };
        let th = if tile_size <= self.height - py { tile_size } else { self.height - py };
        if tw == 0 || th == 0 {
            return None;
        }
        let cam_x = self.origin_x + signed_exec(px);
        let cam_y = self.origin_y + signed_exec(py);
        Some((cam_x, cam_y, tw, th))
    }

    /// The plane made of `cells`, composited over `layers` (ascending
    /// z-levels, drawn in this order): its pixel bounds enclose every square
    /// of every cell at the lowest and highest layer, with a margin of
    /// `SPRITE_MARGIN` pixels. `None` when that arithmetic leaves `i32`.
    pub fn from_cells(cells: &[(u32, u32)], layers: Vec<i32>) -> (r: Option<World>)
        requires
            cells@.len() > 0,
            layers@.len() > 0,
        ensures
            ({
                let (min_cx, max_cx, min_cy, max_cy) = (
                    choose|m: u32| is_min_x(cells@, m),
                    choose|m: u32| is_max_x(cells@, m),
                    choose|m: u32| is_min_y(cells@, m),
                    choose|m: u32| is_max_y(cells@, m),
                );
                match world_geometry(min_cx, min_cy, max_cx, max_cy, layers@[0], layers@.last()) {
                    None => r is None,
                    Some((ox, oy, w, h)) => r matches Some(world) && world@ == (WorldView {
                        cells: cells@.to_set(),
                        min_cell: (min_cx, min_cy),
                        max_cell: (max_cx, max_cy),
                        layers: layers@,
                        origin_x: ox,
                        origin_y: oy,
                        width: w,
                        height: h,
                    }),
                }
            }),
            is_min_x(cells@, choose|m: u32| is_min_x(cells@, m)),
            is_max_x(cells@, choose|m: u32| is_max_x(cells@, m)),
            is_min_y(cells@, choose|m: u32| is_min_y(cells@, m)),
            is_max_y(cells@, choose|m: u32| is_max_y(cells@, m)),
    {
        let mut present: HashSet<u64> = HashSet::new();
        assert(present@ =~= Set::empty());
        let mut min_cx = cells[0].0;
        let mut max_cx = cells[0].0;
        let mut min_cy = cells[0].1;
        let mut max_cy = cells[0].1;
        let mut i: usize = 0;
        while i < cells.len()
            invariant
                i <= cells@.len(),
                cells@.len() > 0,
                vstd::std_specs::hash::obeys_key_model::<u64>(),
                present@.finite(),
                forall|k: u64| present@.contains(k) <==> exists|j: int| 0 <= j < i && cell_key(#[trigger] cells@[j].0, cells@[j].1) == k,
                exists|j: int| 0 <= j < cells@.len() && cells@[j].0 == min_cx,
                exists|j: int| 0 <= j < cells@.len() && cells@[j].0 == max_cx,
                exists|j: int| 0 <= j < cells@.len() && cells@[j].1 == min_cy,
                exists|j: int| 0 <= j < cells@.len() && cells@[j].1 == max_cy,
                forall|j: int| 0 <= j < i ==> min_cx <= #[trigger] cells@[j].0 <= max_cx && min_cy <= cells@[j].1 <= max_cy,
            decreases cells@.len() - i,
        {
            let (x, y) = cells[i];
            present.insert(cell_key_exec(x, y));
            if x < min_cx {
                min_cx = x;
            }
            if x > max_cx {
                max_cx = x;
            }
            if y < min_cy {
                min_cy = y;
            }
            if y > max_cy {
                max_cy = y;
            }
            i += 1;
        }
        proof {
            assert(is_min_x(cells@, min_cx));
            assert(is_max_x(cells@, max_cx));
            assert(is_min_y(cells@, min_cy));
            assert(is_max_y(cells@, max_cy));
            lemma_extremes_unique(cells@, min_cx, choose|m: u32| is_min_x(cells@, m));
            lemma_extremes_unique(cells@, max_cx, choose|m: u32| is_max_x(cells@, m));
            lemma_extremes_unique(cells@, min_cy, choose|m: u32| is_min_y(cells@, m));
            lemma_extremes_unique(cells@, max_cy, choose|m: u32| is_max_y(cells@, m));
        }
        let z_lo = layers[0];
        let z_hi = layers[layers.len() - 1];
        let (origin_x, origin_y, width, height) = match geometry(min_cx, min_cy, max_cx, max_cy, z_lo, z_hi) {
            Some(g) => g,
            None => return None,
        };
        let world = World {
            present,
            min_cell: (min_cx, min_cy),
            max_cell: (max_cx, max_cy),
            layers,
            origin_x,
            origin_y,
            width,
            height,
        };
        proof {
            assert forall|c: (u32, u32)| world@.cells.contains(c) == cells@.to_set().contains(c) by {
                if world@.cells.contains(c) {
                    let j = choose|j: int| 0 <= j < cells@.len() && cell_key(cells@[j].0, cells@[j].1) == cell_key(c.0, c.1);
                    lemma_cell_key_injective(cells@[j].0, cells@[j].1, c.0, c.1);
                    assert(cells@[j] == c);
                }
                if cells@.to_set().contains(c) {
                    let j = choose|j: int| 0 <= j < cells@.len() && cells@[j] == c;
                    assert(cell_key(cells@[j].0, cells@[j].1) == cell_key(c.0, c.1));
                }
            }
            assert(world@.cells =~= cells@.to_set());
        }
        Some(world)
    }
}


/// Whether `b` is an ASCII decimal digit.
pub open spec fn is_digit(b: u8) -> bool {
    48 <= b <= 57
}

/// The number written by the ASCII decimal digits `s`.
pub open spec fn digits_value(s: Seq<u8>) -> nat
    decreases s.len(),
{
    if s.len() == 0 {
        0
    } else {
        digits_value(s.drop_last()) * 10 + (s.last() - 48) as nat
    }
}

/// The value of a non-empty run of decimal digits that fits in `u32`.
pub open spec fn digits_u32(d: Seq<u8>) -> Option<u32> {
    if d.len() > 0 && (forall|i: int| 0 <= i < d.len() ==> is_digit(#[trigger] d[i])) && digits_value(d) <= u32::MAX {
        Some(digits_value(d) as u32)
    } else {
        None
    }
}

/// `s` without one leading `+`.
pub open spec fn drop_plus(s: Seq<u8>) -> Seq<u8> {
    if s.len() > 0 && s[0] == 43 { s.drop_first() } else { s }
}

/// What `str::parse::<u32>` gives for `s`: an optional leading `+`, then one
/// or more decimal digits whose value fits in `u32`.
pub open spec fn parse_u32_spec(s: Seq<u8>) -> Option<u32> {
    digits_u32(drop_plus(s))
}

/// The bytes of `world_`.
pub open spec fn cell_prefix() -> Seq<u8> {
    seq![119u8, 111, 114, 108, 100, 95]
}

/// The bytes of `.lotpack`.
pub open spec fn cell_suffix() -> Seq<u8> {
    seq![46u8, 108, 111, 116, 112, 97, 99, 107]
}

/// The cell `(x, y)` named by a file name `world_{x}_{y}.lotpack`: the part
/// between the prefix and the suffix is split at its first `_`, and each side
/// must parse as a `u32`.
pub open spec fn cell_name_spec(b: Seq<u8>) -> Option<(u32, u32)> {
    if b.len() >= 14 && b.subrange(0, 6) == cell_prefix() && b.subrange(b.len() - 8, b.len() as int) == cell_suffix() {
        let stem = b.subrange(6, b.len() - 8);
        match first_index(stem, 95) {
            None => None,
            Some(i) => match (parse_u32_spec(stem.take(i)), parse_u32_spec(stem.skip(i + 1))) {
                (Some(x), Some(y)) => Some((x, y)),
                _ => None,
            },
        }
    } else {
        None
    }
}

/// A prefix of a run of digits is worth no more than the whole run.
proof fn lemma_digits_prefix(s: Seq<u8>, k: int)
    requires
        0 <= k <= s.len(),
        forall|i: int| 0 <= i < s.len() ==> is_digit(#[trigger] s[i]),
    ensures
        digits_value(s.take(k)) <= digits_value(s),
    decreases s.len() - k,
{
    if k < s.len() {
        lemma_digits_prefix(s, k + 1);
        assert(s.take(k + 1).drop_last() =~= s.take(k));
    } else {
        assert(s.take(k) =~= s);
    }
}

/// Parses `b[lo..hi]` as `str::parse::<u32>` does.
fn parse_u32_at(b: &[u8], lo: usize, hi: usize) -> (r: Option<u32>)
    requires
        lo <= hi <= b@.len(),
    ensures
        r == parse_u32_spec(b@.subrange(lo as int, hi as int)),
{
    let ghost s = b@.subrange(lo as int, hi as int);
    let start = if lo < hi && b[lo] == 43 { lo + 1 } else { lo };
    let ghost d = b@.subrange(start as int, hi as int);
    assert(d =~= drop_plus(s));
    if start == hi {
        return None;
    }
    let mut v: u64 = 0;
    let mut i = start;
    while i < hi
        invariant
            lo <= start <= i <= hi <= b@.len(),
            start < hi,
            s == b@.subrange(lo as int, hi as int),
            d == b@.subrange(start as int, hi as int),
            d == drop_plus(s),
            forall|j: int| 0 <= j < i - start ==> is_digit(#[trigger] d[j]),
            v == digits_value(d.take(i - start)),
            v <= u32::MAX,
        decreases hi - i,
    {
        let c = b[i];
        if c < 48 || c > 57 {
            assert(!is_digit(d[i - start]));
            return None;
        }
        proof {
            assert(d.take(i - start + 1).drop_last() =~= d.take(i - start));
        }
        v = v * 10 + (c - 48) as u64;
        i += 1;
        if v > 0xffff_ffff {
            proof {
                if forall|j: int| 0 <= j < d.len() ==> is_digit(#[trigger] d[j]) {
                    lemma_digits_prefix(d, i - start);
                }
            }
            return None;
        }
    }
    assert(d.take(i - start) =~= d);
    Some(v as u32)
}

/// Parses a cell file name `world_{x}_{y}.lotpack` into `(x, y)`.
pub fn parse_cell_name(name: &str) -> (r: Option<(u32, u32)>)
    ensures
        r == cell_name_spec(name.spec_bytes()),
{
    let b = name.as_bytes();
    let n = b.len();
    if n < 14 {
        return None;
    }
    if !(b[0] == 119 && b[1] == 111 && b[2] == 114 && b[3] == 108 && b[4] == 100 && b[5] == 95) {
        assert(b@.subrange(0, 6) != cell_prefix()) by {
            if b@.subrange(0, 6) == cell_prefix() {
                assert(b@.subrange(0, 6)[0] == b@[0]);
                assert(b@.subrange(0, 6)[1] == b@[1]);
                assert(b@.subrange(0, 6)[2] == b@[2]);
                assert(b@.subrange(0, 6)[3] == b@[3]);
                assert(b@.subrange(0, 6)[4] == b@[4]);
                assert(b@.subrange(0, 6)[5] == b@[5]);
            }
        }
        return None;
    }
    let e = n - 8;
    if !(b[e] == 46 && b[e + 1] == 108 && b[e + 2] == 111 && b[e + 3] == 116 && b[e + 4] == 112 && b[e + 5] == 97
        && b[e + 6] == 99 && b[e + 7] == 107) {
        assert(b@.subrange(e as int, n as int) != cell_suffix()) by {
            if b@.subrange(e as int, n as int) == cell_suffix() {
                let t = b@.subrange(e as int, n as int);
                assert(t[0] == b@[e as int] && t[1] == b@[e + 1] && t[2] == b@[e + 2] && t[3] == b@[e + 3]);
                assert(t[4] == b@[e + 4] && t[5] == b@[e + 5] && t[6] == b@[e + 6] && t[7] == b@[e + 7]);
            }
        }
        return None;
    }
    assert(b@.subrange(0, 6) =~= cell_prefix());
    assert(b@.subrange(e as int, n as int) =~= cell_suffix());
    let ghost stem = b@.subrange(6, e as int);
    let mut k: usize = 6;
    while k < e && b[k] != 95
        invariant
            6 <= k <= e,
            e <= b@.len(),
            stem == b@.subrange(6, e as int),
            forall|j: int| 0 <= j < k - 6 ==> stem[j] != 95,
        decreases e - k,
    {
        k += 1;
    }
    if k == e {
        assert(first_index(stem, 95) is None) by {
            if exists|i: int| is_first_index(stem, 95, i) {
                let i = choose|i: int| is_first_index(stem, 95, i);
                assert(stem[i] != 95);
            }
        }
        return None;
    }
    proof {
        let i = (k - 6) as int;
        assert(is_first_index(stem, 95, i));
        let c = choose|c: int| is_first_index(stem, 95, c);
        crate::text::lemma_first_index_unique(stem, 95, i, c);
        assert(stem.take(i) =~= b@.subrange(6, k as int));
        assert(stem.skip(i + 1) =~= b@.subrange(k + 1, e as int));
    }
    let x = parse_u32_at(b, 6, k);
    let y = parse_u32_at(b, k + 1, e);
    match (x, y) {
        (Some(x), Some(y)) => Some((x, y)),
        _ => None,
    }
}


/// The name of the header file of cell `(x, y)`: `{x}_{y}.lotheader`.
pub open spec fn header_name(x: nat, y: nat) -> Seq<char> {
    decimal(x) + seq!['_'] + decimal(y) + seq!['.', 'l', 'o', 't', 'h', 'e', 'a', 'd', 'e', 'r']
}

/// The name of the pack file of cell `(x, y)`: `world_{x}_{y}.lotpack`.
pub open spec fn pack_name(x: nat, y: nat) -> Seq<char> {
    seq!['w', 'o', 'r', 'l', 'd', '_'] + decimal(x) + seq!['_'] + decimal(y) + seq!['.', 'l', 'o', 't', 'p', 'a', 'c', 'k']
}

/// The file names of cell `(x, y)`: its header and its pack.
pub fn cell_file_names(x: usize, y: usize) -> (r: (String, String))
    ensures
        r.0@ == header_name(x as nat, y as nat),
        r.1@ == pack_name(x as nat, y as nat),
{
    let xs = decimal_string(x as u64);
    let ys = decimal_string(y as u64);
    let mut header = String::new();
    header.append(xs.as_str());
    header.append("_");
    header.append(ys.as_str());
    header.append(".lotheader");
    let mut pack = String::new();
    pack.append("world_");
    pack.append(xs.as_str());
    pack.append("_");
    pack.append(ys.as_str());
    pack.append(".lotpack");
    proof {
        reveal_strlit("_");
        reveal_strlit(".lotheader");
        reveal_strlit("world_");
        reveal_strlit(".lotpack");
        assert(header@ =~= header_name(x as nat, y as nat));
        assert(pack@ =~= pack_name(x as nat, y as nat));
    }
    (header, pack)
}

/// The ASCII bytes of the decimal notation of `n`.
pub open spec fn decimal_bytes(n: nat) -> Seq<u8> {
    decimal(n).map_values(|c: char| c as u8)
}

/// Decimal notation is a non-empty run of ASCII digits worth `n`.
proof fn lemma_decimal_digits(n: nat)
    ensures
        decimal(n).len() > 0,
        forall|i: int| 0 <= i < decimal(n).len() ==> '0' <= #[trigger] decimal(n)[i] <= '9',
        forall|i: int| 0 <= i < decimal_bytes(n).len() ==> is_digit(#[trigger] decimal_bytes(n)[i]),
        digits_value(decimal_bytes(n)) == n,
    decreases n,
{
    if n >= 10 {
        lemma_decimal_digits(n / 10);
        let d = decimal(n / 10);
        assert(decimal(n) == d.push(digit_char(n % 10)));
        assert(decimal_bytes(n).drop_last() =~= decimal_bytes(n / 10));
        assert(decimal_bytes(n).last() == 48 + n % 10);
        assert((n / 10) * 10 + n % 10 == n);
    } else {
        assert(decimal_bytes(n) =~= seq![(48 + n) as u8]);
        assert(decimal_bytes(n).drop_last() =~= Seq::<u8>::empty());
        assert(digits_value(Seq::<u8>::empty()) == 0);
    }
}

/// A run of decimal digits that fits in `u32` parses to its value.
proof fn lemma_parse_decimal(n: u32)
    ensures
        parse_u32_spec(decimal_bytes(n as nat)) == Some(n),
{
    lemma_decimal_digits(n as nat);
    let d = decimal_bytes(n as nat);
    assert(is_digit(d[0]));
    assert(drop_plus(d) == d);
}

/// The pack file name of a cell parses back to the cell: the names that a
/// directory scan accepts are those that the cell's files are written under.
pub proof fn lemma_pack_name_parses(x: u32, y: u32)
    ensures
        cell_name_spec(encode_utf8(pack_name(x as nat, y as nat))) == Some((x, y)),
{
    let cs = pack_name(x as nat, y as nat);
    let dx = decimal(x as nat);
    let dy = decimal(y as nat);
    lemma_decimal_digits(x as nat);
    lemma_decimal_digits(y as nat);
    lemma_parse_decimal(x);
    lemma_parse_decimal(y);
    assert(is_ascii_chars(cs)) by {
        assert forall|i: int| 0 <= i < cs.len() implies '\0' <= #[trigger] cs[i] <= '\u{7f}' by {
            if 6 <= i < 6 + dx.len() {
                assert(cs[i] == dx[i - 6]);
            } else if 7 + dx.len() <= i < 7 + dx.len() + dy.len() {
                assert(cs[i] == dy[i - 7 - dx.len()]);
            }
        }
    }
    is_ascii_chars_encode_utf8(cs);
    let b = encode_utf8(cs);
    let bx = decimal_bytes(x as nat);
    let by = decimal_bytes(y as nat);
    let expect = cell_prefix() + bx + seq![95u8] + by + cell_suffix();
    assert(b =~= expect) by {
        assert forall|i: int| 0 <= i < b.len() implies b[i] == expect[i] by {
            assert(b[i] == cs[i] as u8);
            if 6 <= i < 6 + dx.len() {
                assert(cs[i] == dx[i - 6]);
            } else if 7 + dx.len() <= i < 7 + dx.len() + dy.len() {
                assert(cs[i] == dy[i - 7 - dx.len()]);
            }
        }
    }
    let n = b.len();
    assert(b.subrange(0, 6) =~= cell_prefix());
    assert(b.subrange(n - 8, n as int) =~= cell_suffix());
    let stem = b.subrange(6, n - 8);
    assert(stem =~= bx + seq![95u8] + by);
    let i = bx.len() as int;
    assert(is_first_index(stem, 95, i)) by {
        assert forall|j: int| 0 <= j < i implies stem[j] != 95 by {
            assert(stem[j] == bx[j]);
            assert(is_digit(bx[j]));
        }
    }
    let c = choose|c: int| is_first_index(stem, 95, c);
    crate::text::lemma_first_index_unique(stem, 95, i, c);
    assert(stem.take(i) =~= bx);
    assert(stem.skip(i + 1) =~= by);
}


/// `unsigned` undoes `signed`.
proof fn lemma_unsigned_signed(v: u32)
    ensures
        unsigned(signed(v)) == v,
{
}

/// No cell that can reach into a tile is left out of its cover: when a
/// square of a map cell, lifted to a layer between the lowest and the highest
/// composited, projects into the tile's rectangle padded by `SPRITE_MARGIN`,
/// the cell is in the cover of the tile.
pub proof fn lemma_cover_complete(
    w: WorldView,
    cam_x: i32,
    cam_y: i32,
    view_w: u32,
    view_h: u32,
    c: (u32, u32),
    lx: int,
    ly: int,
    z: int,
)
    requires
        w.layers.len() > 0,
        w.cells.contains(c),
        signed(w.min_cell.0) <= signed(c.0) <= signed(w.max_cell.0),
        signed(w.min_cell.1) <= signed(c.1) <= signed(w.max_cell.1),
        0 <= lx < 256,
        0 <= ly < 256,
        w.layers[0] <= z <= w.layers.last(),
        cover_range(w, cam_x, cam_y, view_w, view_h) is Some,
        ({
            let (sx, sy) = project_spec(signed(c.0) * 256 + lx, signed(c.1) * 256 + ly, z);
            &&& cam_x - 1024 <= sx <= cam_x + signed(view_w) + 1024
            &&& cam_y - 1024 <= sy <= cam_y + signed(view_h) + 1024
        }),
    ensures
        in_cover(w, cover_range(w, cam_x, cam_y, view_w, view_h)->0, c),
{
    let range = cover_range(w, cam_x, cam_y, view_w, view_h)->0;
    let z_lo = w.layers[0] as int;
    let z_hi = w.layers.last() as int;
    let vw = signed(view_w);
    let vh = signed(view_h);
    let px_lo = cam_x - 1024;
    let px_hi = cam_x + vw + 1024;
    let py_lo = cam_y - 1024;
    let py_hi = cam_y + vh + 1024;
    let gx = signed(c.0) * 256 + lx;
    let gy = signed(c.1) * 256 + ly;
    let u = gx - gy;
    let v = gx + gy;
    // the column u and the diagonal v of the square lie between the corners
    lemma_div_is_ordered(px_lo, u * 64, 64);
    lemma_div_is_ordered(u * 64, px_hi, 64);
    lemma_div_multiples_vanish(u, 64);
    assert(u * 64 == 64 * u);
    let u_lo = px_lo / 64;
    let u_hi = px_hi / 64;
    assert(u_lo <= u <= u_hi);
    assert(py_lo + z_lo * 192 <= v * 32) by (nonlinear_arith)
        requires
            z_lo <= z,
            py_lo <= v * 32 - z * 192,
    ;
    assert(v * 32 <= py_hi + z_hi * 192) by (nonlinear_arith)
        requires
            z <= z_hi,
            v * 32 - z * 192 <= py_hi,
    ;
    lemma_div_is_ordered(py_lo + z_lo * 192, v * 32, 32);
    lemma_div_is_ordered(v * 32, py_hi + z_hi * 192, 32);
    lemma_div_multiples_vanish(v, 32);
    assert(v * 32 == 32 * v);
    let v_lo = (py_lo + z_lo * 192) / 32;
    let v_hi = (py_hi + z_hi * 192) / 32;
    assert(v_lo <= v <= v_hi);
    // the square's coordinates lie between the inverted corners
    lemma_div_is_ordered(u_lo + v_lo, u + v, 2);
    lemma_div_is_ordered(u + v, u_hi + v_hi, 2);
    lemma_div_is_ordered(v_lo - u_hi, v - u, 2);
    lemma_div_is_ordered(v - u, v_hi - u_lo, 2);
    lemma_div_multiples_vanish(gx, 2);
    lemma_div_multiples_vanish(gy, 2);
    assert(u + v == 2 * gx);
    assert(v - u == 2 * gy);
    let gx_lo = (u_lo + v_lo) / 2;
    let gx_hi = (u_hi + v_hi) / 2;
    let gy_lo = (v_lo - u_hi) / 2;
    let gy_hi = (v_hi - u_lo) / 2;
    assert(gx_lo <= gx <= gx_hi);
    assert(gy_lo <= gy <= gy_hi);
    // and so does the cell
    lemma_fundamental_div_mod_converse(gx, 256, signed(c.0), lx);
    lemma_fundamental_div_mod_converse(gy, 256, signed(c.1), ly);
    lemma_div_is_ordered(gx_lo, gx, 256);
    lemma_div_is_ordered(gx, gx_hi, 256);
    lemma_div_is_ordered(gy_lo, gy, 256);
    lemma_div_is_ordered(gy, gy_hi, 256);
    assert(range.0 <= signed(c.0) <= range.1);
    assert(range.2 <= signed(c.1) <= range.3);
    lemma_unsigned_signed(c.0);
    lemma_unsigned_signed(c.1);
    assert(c == cell_of(signed(c.0), signed(c.1)));
}


/// Edge tiles are clipped to the plane: a tile's pixels all lie inside it,
/// and a tile is never larger than the tile size.
pub proof fn lemma_tile_inside_plane(w: WorldView, col: u32, row: u32, tile_size: u32)
    requires
        tile_in_plane(w, col, row, tile_size),
    ensures
        tile_view_spec(w, col, row, tile_size) matches Some((_, _, tw, th)) ==> {
            &&& 0 < tw <= tile_size && 0 < th <= tile_size
            &&& col * tile_size + tw <= w.width
            &&& row * tile_size + th <= w.height
        },
{
}


/// Appends the decimal digits of `n` to `out`.
fn push_decimal(n: u64, out: &mut Vec<u8>)
    ensures
        final(out)@ == old(out)@ + decimal_bytes(n as nat),
    decreases n,
{
    if n >= 10 {
        push_decimal(n / 10, out);
    }
    out.push((48 + n % 10) as u8);
    proof {
        let d = decimal_bytes(n as nat);
        if n >= 10 {
            assert(decimal(n as nat) == decimal((n / 10) as nat).push(digit_char((n % 10) as nat)));
            assert(d =~= decimal_bytes((n / 10) as nat).push((48 + n % 10) as u8));
        } else {
            assert(d =~= seq![(48 + n) as u8]);
        }
        assert(final(out)@ =~= old(out)@ + d);
    }
}

/// The decimal notation of `n`, without sign or leading zeros.
pub fn decimal_string(n: u64) -> (r: String)
    ensures
        r@ == decimal(n as nat),
{
    let mut digits: Vec<u8> = Vec::new();
    push_decimal(n, &mut digits);
    proof {
        assert(digits@ =~= decimal_bytes(n as nat));
        lemma_decimal_digits(n as nat);
        let cs = decimal(n as nat);
        assert(is_ascii_chars(cs)) by {
            assert forall|i: int| 0 <= i < cs.len() implies '\0' <= #[trigger] cs[i] <= '\u{7f}' by {}
        }
        is_ascii_chars_encode_utf8(cs);
        assert(encode_utf8(cs) =~= digits@);
        vstd::utf8::encode_utf8_valid_utf8(cs);
        vstd::utf8::encode_utf8_decode_utf8(cs);
    }
    match crate::text::decode_str(digits.as_slice()) {
        Some(s) => s.to_owned(),
        None => {
            assert(false);
            String::new()
        },
    }
}

} // verus!
