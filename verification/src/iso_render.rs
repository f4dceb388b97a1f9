//! The isometric projection of a map cell and the order in which its tile
//! sprites are drawn.
use vstd::prelude::*;
use crate::header::fits_i32;
use crate::cell::{LotPack, LotPackView, cell_square_index, layer_index, blocks_layers};
use crate::world::signed;
use crate::dzi::{overlaid, overlay_rgba, zero_canvas};
use crate::texture::{SpriteTable, SpriteView};

verus! {

/// Width of a square on screen.
pub const TILE_W: i32 = 128;

pub const HALF_TILE_W: i32 = 64;

/// Height of a square on screen.
pub const TILE_H: i32 = 64;

pub const HALF_TILE_H: i32 = 32;

/// Vertical lift of one z-level on screen.
pub const Z_HEIGHT: i32 = 192;

/// Squares along the edge of a cell.
pub const N: i32 = 256;

/// Widest sprite that can overhang a square.
pub const MAX_SPRITE_W: i32 = 1024;

/// Tallest sprite that can overhang a square.
pub const MAX_SPRITE_H: i32 = 1024;

/// Whether projecting square `(sx, sy)` at level `z` stays within `i32`.
pub open spec fn project_fits(sx: int, sy: int, z: int) -> bool {
    &&& fits_i32(sx - sy)
    &&& fits_i32((sx - sy) * 64)
    &&& fits_i32(sx + sy)
    &&& fits_i32((sx + sy) * 32)
    &&& fits_i32(z * 192)
    &&& fits_i32((sx + sy) * 32 - z * 192)
}

/// The screen position of square `(sx, sy)` at level `z`.
pub open spec fn project_spec(sx: int, sy: int, z: int) -> (int, int) {
    ((sx - sy) * 64, (sx + sy) * 32 - z * 192)
}

/// The screen position of square `(sx, sy)` at level `z`: x grows with
/// `sx - sy`, y with `sx + sy`, and each level lifts the square up.
#[inline]
pub fn project(sx: i32, sy: i32, z: i32) -> (r: (i32, i32))
    requires
        project_fits(sx as int, sy as int, z as int),
    ensures
        (r.0 as int, r.1 as int) == project_spec(sx as int, sy as int, z as int),
{
    let screen_x = (sx - sy) * HALF_TILE_W;
    let screen_y = (sx + sy) * HALF_TILE_H - z * Z_HEIGHT;
    (screen_x, screen_y)
}

/// One sprite to draw: a tile id and the screen position (relative to the
/// viewport) of the anchor of its square.
#[derive(Debug, Clone, Copy, PartialEq, Eq, Structural)]
pub struct Draw {
    pub tid: i32,
    pub x: i32,
    pub y: i32,
}

/// `a / 2` rounded toward zero, as Rust's `/` on integers.
pub open spec fn trunc_half(a: int) -> int {
    if a >= 0 {
        a / 2
    } else {
        -((-a) / 2)
    }
}

/// `(gx_lo, gx_hi, d_lo, d_hi)`: the columns `sx - sy` (in half-tile units)
/// and the diagonals `sx + sy` that can hold a sprite reaching into the
/// viewport, padded by half the widest and the full tallest sprite; `None`
/// when that arithmetic leaves `i32`.
pub open spec fn view_range(cam_x: i32, cam_y: i32, view_w: u32, view_h: u32) -> Option<(int, int, int, int)> {
    let vw = signed(view_w);
    let vh = signed(view_h);
    if fits_i32(cam_x - 512) && fits_i32(cam_x + vw) && fits_i32(cam_x + vw + 512) && fits_i32(cam_y - 32)
        && fits_i32(cam_y + vh) && fits_i32(cam_y + vh + 1024) {
        Some(((cam_x - 512) / 64, (cam_x + vw + 512) / 64, (cam_y - 32) / 32, (cam_y + vh + 1024) / 32))
    } else {
        None
    }
}

/// First `sx` drawn on diagonal `diag`.
pub open spec fn sx_first(diag: int, gx_lo: int) -> int {
    let a = trunc_half(diag + gx_lo + 1);
    let b = if diag - 255 >= 0 { diag - 255 } else { 0 };
    if a >= b { a } else { b }
}

/// Last `sx` drawn on diagonal `diag`.
pub open spec fn sx_last(diag: int, gx_hi: int) -> int {
    let a = trunc_half(diag + gx_hi);
    let b = if diag <= 255 { diag } else { 255 };
    if a <= b { a } else { b }
}

/// The tile ids on square `(sx, sy)` of the cell at `layer`.
pub open spec fn stack_at(p: LotPackView, sx: int, sy: int, layer: i32) -> Seq<i32> {
    p.squares[cell_square_index(p.layers, sx, sy, layer_index(layer, p.header.min_layer))]
}

/// The draws of the squares from `(diag, sx)` on, after those in `acc`:
/// diagonal by diagonal (far to near), along each diagonal by ascending `sx`,
/// every tile id of a square at the square's projected anchor. `None` when
/// the screen arithmetic of a non-empty square leaves `i32`.
pub open spec fn draws_from(
    p: LotPackView,
    layer: i32,
    cam_x: i32,
    cam_y: i32,
    gx_lo: int,
    gx_hi: int,
    d_end: int,
    diag: int,
    sx: int,
    acc: Seq<Draw>,
) -> Option<Seq<Draw>>
    decreases d_end + 1 - diag, 256 - sx,
{
    if diag > d_end {
        Some(acc)
    } else if sx > sx_last(diag, gx_hi) {
        draws_from(p, layer, cam_x, cam_y, gx_lo, gx_hi, d_end, diag + 1, sx_first(diag + 1, gx_lo), acc)
    } else {
        let sy = diag - sx;
        let stack = stack_at(p, sx, sy, layer);
        if stack.len() == 0 {
            draws_from(p, layer, cam_x, cam_y, gx_lo, gx_hi, d_end, diag, sx + 1, acc)
        } else {
            let (wx, wy) = project_spec(sx, sy, layer as int);
            if !(fits_i32(layer * 192) && fits_i32(wy) && fits_i32(wx - cam_x) && fits_i32(wy + 32) && fits_i32(wy + 32 - cam_y)) {
                None
            } else {
                let bx = (wx - cam_x) as i32;
                let by = (wy + 32 - cam_y) as i32;
                draws_from(
                    p,
                    layer,
                    cam_x,
                    cam_y,
                    gx_lo,
                    gx_hi,
                    d_end,
                    diag,
                    sx + 1,
                    acc + stack.map_values(|tid: i32| Draw { tid, x: bx, y: by }),
                )
            }
        }
    }
}

/// The draws of a viewport of the cell at `layer`, in painter's order.
pub open spec fn viewport_draws_spec(p: LotPackView, cam_x: i32, cam_y: i32, view_w: u32, view_h: u32, layer: i32) -> Option<Seq<Draw>> {
    match view_range(cam_x, cam_y, view_w, view_h) {
        None => None,
        Some((gx_lo, gx_hi, d_lo, d_hi)) => {
            let d0 = if d_lo >= 0 { d_lo } else { 0 };
            let d_end = if d_hi <= 510 { d_hi } else { 510 };
            draws_from(p, layer, cam_x, cam_y, gx_lo, gx_hi, d_end, d0, sx_first(d0, gx_lo), Seq::empty())
        },
    }
}

fn trunc_half_exec(a: i64) -> (r: i64)
    requires
        -0x1_0000_0000 <= a <= 0x1_0000_0000,
    ensures
        r == trunc_half(a as int),
{
    if a >= 0 {
        a / 2
    } else {
        -((-a) / 2)
    }
}

fn floor_div64(a: i64, d: i64) -> (r: i64)
    requires
        0 < d <= 64,
        -0x1_0000_0000 <= a <= 0x1_0000_0000,
    ensures
        r == a / d,
{
    let q = if a >= 0 {
        a / d
    } else {
        -((-a + d - 1) / d)
    };
    proof {
        let ai = a as int;
        let di = d as int;
        if a < 0 {
            let m = (-ai + di - 1) / di;
            assert(q == -m);
            assert(-m == ai / di) by (nonlinear_arith)
                requires
                    di > 0,
                    ai < 0,
                    m == (-ai + di - 1) / di,
            ;
        }
    }
    q
}

fn fits32(v: i64) -> (r: bool)
    ensures
        r == fits_i32(v as int),
{
    i32::MIN as i64 <= v && v <= i32::MAX as i64
}

/// The sprites to draw for a `view_w × view_h` viewport at `(cam_x, cam_y)`
/// of the cell's `layer`, in painter's order (far to near), each at the
/// viewport position of its square's anchor. `None` when the screen
/// arithmetic leaves `i32`.
pub fn viewport_draws(pack: &LotPack, cam_x: i32, cam_y: i32, view_w: u32, view_h: u32, layer: i32) -> (r: Option<Vec<Draw>>)
    requires
        0 <= layer_index(layer, pack.header.min_layer) < blocks_layers(pack.blocks),
    ensures
        match viewport_draws_spec(pack@, cam_x, cam_y, view_w, view_h, layer) {
            None => r is None,
            Some(d) => r matches Some(v) && v@ == d,
        },
{
    let vw = crate::world::signed_exec(view_w) as i64;
    let vh = crate::world::signed_exec(view_h) as i64;
    let cx = cam_x as i64;
    let cy = cam_y as i64;
    let hw = (TILE_W / 2) as i64;
    let hh = (TILE_H / 2) as i64;
    let pad_w = (MAX_SPRITE_W / 2) as i64;
    let pad_h = MAX_SPRITE_H as i64;
    if !(fits32(cx - pad_w) && fits32(cx + vw) && fits32(cx + vw + pad_w) && fits32(cy - hh) && fits32(cy + vh) && fits32(
        cy + vh + pad_h,
    )) {
        return None;
    }
    let gx_lo = floor_div64(cx - pad_w, hw);
    let gx_hi = floor_div64(cx + vw + pad_w, hw);
    let d_lo = floor_div64(cy - hh, hh);
    let d_hi = floor_div64(cy + vh + pad_h, hh);
    let d_end = if d_hi <= 510 { d_hi } else { 510 };
    let mut diag: i64 = if d_lo >= 0 { d_lo } else { 0 };
    let mut draws: Vec<Draw> = Vec::new();
    let ghost whole = viewport_draws_spec(pack@, cam_x, cam_y, view_w, view_h, layer);
    assert(whole == draws_from(pack@, layer, cam_x, cam_y, gx_lo as int, gx_hi as int, d_end as int, diag as int, sx_first(diag as int, gx_lo as int), draws@));
    while diag <= d_end
        invariant
            0 <= diag,
            d_end <= 510,
            -0x0200_0000 <= gx_lo <= 0x0200_0000,
            -0x0200_0000 <= gx_hi <= 0x0200_0000,
            cx == cam_x as i64,
            cy == cam_y as i64,
                0 <= layer_index(layer, pack.header.min_layer) < blocks_layers(pack.blocks),
            whole == viewport_draws_spec(pack@, cam_x, cam_y, view_w, view_h, layer),
            whole == draws_from(pack@, layer, cam_x, cam_y, gx_lo as int, gx_hi as int, d_end as int, diag as int, sx_first(diag as int, gx_lo as int), draws@),
        decreases d_end + 1 - diag,
    {
        let a = trunc_half_exec(diag + gx_lo + 1);
        let b = if diag - 255 >= 0 { diag - 255 } else { 0 };
        let first = if a >= b { a } else { b };
        let a2 = trunc_half_exec(diag + gx_hi);
        let b2 = if diag <= 255 { diag } else { 255 };
        let last = if a2 <= b2 { a2 } else { b2 };
        let mut sx = first;
        while sx <= last
            invariant
                0 <= diag <= d_end,
                d_end <= 510,
                0 <= first <= sx,
                last <= 255,
                last <= diag,
                last == sx_last(diag as int, gx_hi as int),
                diag - 255 <= first,
                -0x0200_0000 <= gx_lo <= 0x0200_0000,
                -0x0200_0000 <= gx_hi <= 0x0200_0000,
                cx == cam_x as i64,
                cy == cam_y as i64,
                        0 <= layer_index(layer, pack.header.min_layer) < blocks_layers(pack.blocks),
                whole == viewport_draws_spec(pack@, cam_x, cam_y, view_w, view_h, layer),
                whole == draws_from(pack@, layer, cam_x, cam_y, gx_lo as int, gx_hi as int, d_end as int, diag as int, sx as int, draws@),
            decreases 256 - sx,
        {
            let sy = diag - sx;
            let stack = pack.get_block(sx as usize, sy as usize, layer);
            if stack.len() == 0 {
                sx += 1;
                continue;
            }
            let l = layer as i64;
            let wx = (sx - sy) * 64;
            let wy = (sx + sy) * 32 - l * 192;
            let t = wy + 32;
            if !(fits32(l * 192) && fits32(wy) && fits32(wx - cx) && fits32(t) && fits32(t - cy)) {
                return None;
            }
            let bx = (wx - cx) as i32;
            let by = (t - cy) as i32;
            let ghost before = draws@;
            let mut k: usize = 0;
            while k < stack.len()
                invariant
                    k <= stack@.len(),
                    draws@ == before + stack@.subrange(0, k as int).map_values(|tid: i32| Draw { tid, x: bx, y: by }),
                decreases stack@.len() - k,
            {
                draws.push(Draw { tid: stack[k], x: bx, y: by });
                proof {
                    assert(stack@.subrange(0, k + 1).map_values(|tid: i32| Draw { tid, x: bx, y: by }) =~= stack@.subrange(0, k as int).map_values(|tid: i32| Draw { tid, x: bx, y: by }).push(Draw { tid: stack@[k as int], x: bx, y: by }));
                }
                k += 1;
            }
            proof {
                assert(stack@.subrange(0, stack@.len() as int) =~= stack@);
            }
            sx += 1;
        }
        diag += 1;
    }
    Some(draws)
}


/// Where square `(0, 0)` of cell `(cx, cy)` lands, at level 0, on the plane
/// of the whole map.
pub open spec fn cell_offset(cx: u32, cy: u32) -> (int, int) {
    project_spec(signed(cx) * 256, signed(cy) * 256, 0)
}

/// The sprites of cell `(cx, cy)` to draw for a `view_w × view_h` viewport
/// at `(cam_x, cam_y)` on the plane of the whole map: the cell's own
/// viewport moved by the cell's offset. `None` when that arithmetic leaves
/// `i32`.
pub fn cell_viewport_draws(
    pack: &LotPack,
    cx: u32,
    cy: u32,
    cam_x: i32,
    cam_y: i32,
    view_w: u32,
    view_h: u32,
    layer: i32,
) -> (r: Option<Vec<Draw>>)
    requires
        0 <= layer_index(layer, pack.header.min_layer) < blocks_layers(pack.blocks),
    ensures
        match cell_draws_spec(pack@, cx, cy, cam_x, cam_y, view_w, view_h, layer) {
            None => r is None,
            Some(d) => r matches Some(v) && v@ == d,
        },
        ({
            let (ox, oy) = cell_offset(cx, cy);
            if fits_i32(ox) && fits_i32(oy) && fits_i32(cam_x - ox) && fits_i32(cam_y - oy) {
                match viewport_draws_spec(pack@, (cam_x - ox) as i32, (cam_y - oy) as i32, view_w, view_h, layer) {
                    None => r is None,
                    Some(d) => r matches Some(v) && v@ == d,
                }
            } else {
                r is None
            }
        }),
{
    let gx = crate::world::signed_exec(cx) as i64 * 256;
    let gy = crate::world::signed_exec(cy) as i64 * 256;
    let ox = (gx - gy) * 64;
    let oy = (gx + gy) * 32;
    let lx = cam_x as i64 - ox;
    let ly = cam_y as i64 - oy;
    if !(fits32(ox) && fits32(oy) && fits32(lx) && fits32(ly)) {
        return None;
    }
    viewport_draws(pack, lx as i32, ly as i32, view_w, view_h, layer)
}


/// Distinct squares of one level have distinct anchors on screen.
pub proof fn lemma_project_injective(sx1: int, sy1: int, sx2: int, sy2: int, z: int)
    requires
        project_spec(sx1, sy1, z) == project_spec(sx2, sy2, z),
    ensures
        sx1 == sx2,
        sy1 == sy2,
{
}

/// Whether the draws go down the screen: no draw is above an earlier one.
pub open spec fn descending(s: Seq<Draw>) -> bool {
    forall|i: int, j: int| 0 <= i <= j < s.len() ==> (#[trigger] s[i]).y <= (#[trigger] s[j]).y
}

/// The viewport row of the anchors of diagonal `diag` at `layer`.
pub open spec fn diagonal_y(diag: int, layer: i32, cam_y: i32) -> int {
    diag * 32 - layer * 192 + 32 - cam_y
}

/// Drawing on from `(diag, sx)` keeps the draws going down the screen.
proof fn lemma_draws_descend(
    p: LotPackView,
    layer: i32,
    cam_x: i32,
    cam_y: i32,
    gx_lo: int,
    gx_hi: int,
    d_end: int,
    diag: int,
    sx: int,
    acc: Seq<Draw>,
)
    requires
        descending(acc),
        forall|k: int| 0 <= k < acc.len() ==> (#[trigger] acc[k]).y <= diagonal_y(diag, layer, cam_y),
    ensures
        draws_from(p, layer, cam_x, cam_y, gx_lo, gx_hi, d_end, diag, sx, acc) matches Some(r) ==> descending(r),
    decreases d_end + 1 - diag, 256 - sx,
{
    if diag > d_end {
    } else if sx > sx_last(diag, gx_hi) {
        lemma_draws_descend(p, layer, cam_x, cam_y, gx_lo, gx_hi, d_end, diag + 1, sx_first(diag + 1, gx_lo), acc);
    } else {
        let sy = diag - sx;
        let stack = stack_at(p, sx, sy, layer);
        if stack.len() == 0 {
            lemma_draws_descend(p, layer, cam_x, cam_y, gx_lo, gx_hi, d_end, diag, sx + 1, acc);
        } else {
            let (wx, wy) = project_spec(sx, sy, layer as int);
            if fits_i32(layer * 192) && fits_i32(wy) && fits_i32(wx - cam_x) && fits_i32(wy + 32) && fits_i32(wy + 32 - cam_y) {
                let bx = (wx - cam_x) as i32;
                let by = (wy + 32 - cam_y) as i32;
                assert(by == diagonal_y(diag, layer, cam_y));
                let added = stack.map_values(|tid: i32| Draw { tid, x: bx, y: by });
                let next = acc + added;
                assert forall|i: int, j: int| 0 <= i <= j < next.len() implies (#[trigger] next[i]).y <= (#[trigger] next[j]).y by {
                    if i < acc.len() && j < acc.len() {
                        assert(acc[i].y <= acc[j].y);
                    } else if i < acc.len() {
                        assert(acc[i].y <= diagonal_y(diag, layer, cam_y));
                    }
                }
                lemma_draws_descend(p, layer, cam_x, cam_y, gx_lo, gx_hi, d_end, diag, sx + 1, next);
            }
        }
    }
}

/// Painter's order: the sprites of a viewport are drawn far to near, so
/// their anchors go down the screen.
pub proof fn lemma_viewport_descends(p: LotPackView, cam_x: i32, cam_y: i32, view_w: u32, view_h: u32, layer: i32)
    ensures
        viewport_draws_spec(p, cam_x, cam_y, view_w, view_h, layer) matches Some(ds) ==> descending(ds),
{
    match view_range(cam_x, cam_y, view_w, view_h) {
        None => {},
        Some((gx_lo, gx_hi, d_lo, d_hi)) => {
            let d0 = if d_lo >= 0 { d_lo } else { 0 };
            let d_end = if d_hi <= 510 { d_hi } else { 510 };
            lemma_draws_descend(p, layer, cam_x, cam_y, gx_lo, gx_hi, d_end, d0, sx_first(d0, gx_lo), Seq::empty());
        },
    }
}


/// The sprite a tile id stands for: the tile's name in the cell's table of
/// names, looked up among the sprites; `None` for an id outside the table or
/// a name with no sprite.
pub open spec fn sprite_for(tiles: Seq<Seq<char>>, sprites: Map<Seq<char>, SpriteView>, tid: i32) -> Option<SpriteView> {
    if (tid as usize) < tiles.len() {
        sprites.get(tiles[(tid as usize) as int])
    } else {
        None
    }
}

/// The canvas after the first `k` draws: each tile with a sprite is
/// blended onto the canvas at its anchor moved by the sprite's own offset;
/// `None` when that position leaves `i32`.
pub open spec fn draw_all(
    canvas: Seq<u8>,
    w: u32,
    h: u32,
    draws: Seq<Draw>,
    tiles: Seq<Seq<char>>,
    sprites: Map<Seq<char>, SpriteView>,
    k: nat,
) -> Option<Seq<u8>>
    decreases k,
{
    if k == 0 {
        Some(canvas)
    } else {
        match draw_all(canvas, w, h, draws, tiles, sprites, (k - 1) as nat) {
            None => None,
            Some(c) => {
                let d = draws[k - 1];
                match sprite_for(tiles, sprites, d.tid) {
                    None => Some(c),
                    Some(sp) => if fits_i32(d.x + sp.ox) && fits_i32(d.y + sp.oy) {
                        Some(overlaid(c, w, h, sp.pixels, sp.width, sp.height, (d.x + sp.ox) as i64, (d.y + sp.oy) as i64))
                    } else {
                        None
                    },
                }
            },
        }
    }
}

/// The texts of a sequence of strings.
pub open spec fn string_views(ts: Seq<String>) -> Seq<Seq<char>> {
    ts.map_values(|t: String| t@)
}

/// Blends the sprites of `draws` onto a `w × h` RGBA canvas, in order, as
/// stated by `draw_all`.
#[verifier::spinoff_prover]
pub fn draw_sprites(canvas: Vec<u8>, w: u32, h: u32, draws: &Vec<Draw>, tiles: &Vec<String>, sprites: &SpriteTable) -> (r: Option<Vec<u8>>)
    requires
        canvas@.len() == 4 * (w * h),
    ensures
        match draw_all(canvas@, w, h, draws@, string_views(tiles@), sprites@, draws@.len()) {
            None => r is None,
            Some(c) => r matches Some(v) && v@ == c,
        },
        r matches Some(v) ==> v@.len() == canvas@.len(),
{
    let ghost names = string_views(tiles@);
    let ghost start = canvas@;
    let mut out = canvas;
    let mut k: usize = 0;
    while k < draws.len()
        invariant
            k <= draws@.len(),
            out@.len() == 4 * (w * h),
            names == string_views(tiles@),
            start == canvas@,
            draw_all(start, w, h, draws@, names, sprites@, k as nat) == Some(out@),
        decreases draws@.len() - k,
    {
        let d = draws[k];
        let idx = d.tid as usize;
        let found = if idx < tiles.len() {
            sprites.get(tiles[idx].as_str())
        } else {
            None
        };
        match found {
            None => {},
            Some(sp) => {
                let x = d.x as i64 + sp.ox as i64;
                let y = d.y as i64 + sp.oy as i64;
                if !(fits32(x) && fits32(y)) {
                    proof {
                        lemma_draw_all_none(start, w, h, draws@, names, sprites@, (k + 1) as nat, draws@.len());
                    }
                    return None;
                }
                out = overlay_rgba(out, w, h, &sp.pixels, sp.width, sp.height, x, y);
            },
        }
        k += 1;
    }
    Some(out)
}

/// Once a fold of draws has failed it stays failed.
proof fn lemma_draw_all_none(
    canvas: Seq<u8>,
    w: u32,
    h: u32,
    draws: Seq<Draw>,
    tiles: Seq<Seq<char>>,
    sprites: Map<Seq<char>, SpriteView>,
    k: nat,
    n: nat,
)
    requires
        k <= n,
        draw_all(canvas, w, h, draws, tiles, sprites, k) is None,
    ensures
        draw_all(canvas, w, h, draws, tiles, sprites, n) is None,
    decreases n - k,
{
    if k < n {
        lemma_draw_all_none(canvas, w, h, draws, tiles, sprites, k + 1, n);
    }
}

/// The pixels of a `view_w × view_h` viewport at `(cam_x, cam_y)` of the
/// cell's `layer`: a transparent canvas with the viewport's sprites blended
/// on in painter's order.
pub open spec fn render_spec(
    p: LotPackView,
    sprites: Map<Seq<char>, SpriteView>,
    cam_x: i32,
    cam_y: i32,
    view_w: u32,
    view_h: u32,
    layer: i32,
) -> Option<Seq<u8>> {
    match viewport_draws_spec(p, cam_x, cam_y, view_w, view_h, layer) {
        None => None,
        Some(ds) => draw_all(Seq::new(4 * (view_w * view_h) as nat, |i: int| 0u8), view_w, view_h, ds, p.header.tiles, sprites, ds.len()),
    }
}

/// Renders a `view_w × view_h` viewport at `(cam_x, cam_y)` of the cell's
/// `layer` to RGBA pixels, as stated by `render_spec`; `None` when the
/// screen arithmetic leaves `i32`.
pub fn render_iso_viewport(
    pack: &LotPack,
    sprites: &SpriteTable,
    cam_x: i32,
    cam_y: i32,
    view_w: u32,
    view_h: u32,
    layer: i32,
) -> (r: Option<Vec<u8>>)
    requires
        0 <= layer_index(layer, pack.header.min_layer) < blocks_layers(pack.blocks),
        4 * (view_w * view_h) <= usize::MAX,
    ensures
        match render_spec(pack@, sprites@, cam_x, cam_y, view_w, view_h, layer) {
            None => r is None,
            Some(c) => r matches Some(v) && v@ == c,
        },
{
    let draws = match viewport_draws(pack, cam_x, cam_y, view_w, view_h, layer) {
        Some(d) => d,
        None => return None,
    };
    let canvas = zero_canvas(4 * (view_w as usize * view_h as usize));
    draw_sprites(canvas, view_w, view_h, &draws, &pack.header.tiles, sprites)
}


/// Whether the cell stores `layer` among its blocks.
pub open spec fn stores_layer(p: &LotPack, layer: i32) -> bool {
    0 <= layer_index(layer, p.header.min_layer) < blocks_layers(p.blocks)
}

/// The draws of cell `(cx, cy)` for a viewport on the plane of the whole
/// map, as `cell_viewport_draws` computes them.
pub open spec fn cell_draws_spec(p: LotPackView, cx: u32, cy: u32, cam_x: i32, cam_y: i32, w: u32, h: u32, layer: i32) -> Option<Seq<Draw>> {
    let (ox, oy) = cell_offset(cx, cy);
    if fits_i32(ox) && fits_i32(oy) && fits_i32(cam_x - ox) && fits_i32(cam_y - oy) {
        viewport_draws_spec(p, (cam_x - ox) as i32, (cam_y - oy) as i32, w, h, layer)
    } else {
        None
    }
}

/// The canvas, and whether any cell was drawn, after drawing `layer` of
/// the cell at `cell`, when it is loaded and stores that layer; `None` when
/// the arithmetic of a draw leaves `i32`.
#[verifier::opaque]
pub open spec fn cell_step(
    c: Seq<u8>,
    drew: bool,
    cell: (u32, u32),
    pack: Option<&LotPack>,
    layer: i32,
    sprites: Map<Seq<char>, SpriteView>,
    cam_x: i32,
    cam_y: i32,
    w: u32,
    h: u32,
) -> Option<(Seq<u8>, bool)> {
    match pack {
        None => Some((c, drew)),
        Some(p) => if !stores_layer(p, layer) {
            Some((c, drew))
        } else {
            match cell_draws_spec(p@, cell.0, cell.1, cam_x, cam_y, w, h, layer) {
                None => None,
                Some(ds) => match draw_all(c, w, h, ds, p@.header.tiles, sprites, ds.len()) {
                    None => None,
                    Some(c2) => Some((c2, true)),
                },
            }
        },
    }
}

/// Draws `layer` of one cell onto the canvas, as stated by `cell_step`.
fn draw_cell_step(
    canvas: Vec<u8>,
    drew: bool,
    cell: (u32, u32),
    pack: Option<&LotPack>,
    layer: i32,
    sprites: &SpriteTable,
    cam_x: i32,
    cam_y: i32,
    w: u32,
    h: u32,
) -> (r: Option<(Vec<u8>, bool)>)
    requires
        canvas@.len() == 4 * (w * h),
    ensures
        match cell_step(canvas@, drew, cell, pack, layer, sprites@, cam_x, cam_y, w, h) {
            None => r is None,
            Some((c, d)) => r matches Some((v, d2)) && v@ == c && d2 == d && v@.len() == 4 * (w * h),
        },
{
    proof {
        reveal(cell_step);
    }
    match pack {
        None => Some((canvas, drew)),
        Some(p) => {
            if p.get_block_checked(0, 0, layer).is_none() {
                return Some((canvas, drew));
            }
            let ds = match cell_viewport_draws(p, cell.0, cell.1, cam_x, cam_y, w, h, layer) {
                Some(ds) => ds,
                None => return None,
            };
            match draw_sprites(canvas, w, h, &ds, &p.header.tiles, sprites) {
                Some(c2) => Some((c2, true)),
                None => None,
            }
        },
    }
}

/// The canvas, and whether any cell was drawn, after the first `j` cells
/// are drawn at `layer`: cells not loaded or not storing the layer are
/// skipped. `None` when the arithmetic of a draw leaves `i32`.
pub open spec fn layer_fold(
    c: Seq<u8>,
    drew: bool,
    cells: Seq<(u32, u32)>,
    packs: Seq<Option<&LotPack>>,
    layer: i32,
    sprites: Map<Seq<char>, SpriteView>,
    cam_x: i32,
    cam_y: i32,
    w: u32,
    h: u32,
    j: nat,
) -> Option<(Seq<u8>, bool)>
    decreases j,
{
    if j == 0 {
        Some((c, drew))
    } else {
        match layer_fold(c, drew, cells, packs, layer, sprites, cam_x, cam_y, w, h, (j - 1) as nat) {
            None => None,
            Some((c1, d1)) => cell_step(c1, d1, cells[j - 1], packs[j - 1], layer, sprites, cam_x, cam_y, w, h),
        }
    }
}

/// The canvas, and whether any cell was drawn, after the first `i` layers
/// are drawn, each over all the cells in turn.
pub open spec fn tile_fold(
    c: Seq<u8>,
    drew: bool,
    cells: Seq<(u32, u32)>,
    packs: Seq<Option<&LotPack>>,
    layers: Seq<i32>,
    sprites: Map<Seq<char>, SpriteView>,
    cam_x: i32,
    cam_y: i32,
    w: u32,
    h: u32,
    i: nat,
) -> Option<(Seq<u8>, bool)>
    decreases i,
{
    if i == 0 {
        Some((c, drew))
    } else {
        match tile_fold(c, drew, cells, packs, layers, sprites, cam_x, cam_y, w, h, (i - 1) as nat) {
            None => None,
            Some((c1, d1)) => layer_fold(c1, d1, cells, packs, layers[i - 1], sprites, cam_x, cam_y, w, h, cells.len()),
        }
    }
}

/// Whether some pixel of an RGBA buffer is not fully transparent.
pub open spec fn any_opaque(px: Seq<u8>) -> bool {
    exists|i: int| 0 <= i < px.len() && i % 4 == 3 && #[trigger] px[i] != 0
}

/// The pixels of one output tile.
pub enum TilePixels {
    /// Nothing was drawn, or all that was drawn is transparent.
    Empty,
    /// The RGBA pixels of the tile.
    Drawn(Vec<u8>),
    /// The screen arithmetic of some draw left `i32`.
    Overflow,
}

/// Once a fold over the cells of a layer has failed it stays failed.
proof fn lemma_layer_fold_none(
    c: Seq<u8>,
    drew: bool,
    cells: Seq<(u32, u32)>,
    packs: Seq<Option<&LotPack>>,
    layer: i32,
    sprites: Map<Seq<char>, SpriteView>,
    cam_x: i32,
    cam_y: i32,
    w: u32,
    h: u32,
    j: nat,
    n: nat,
)
    requires
        j <= n,
        layer_fold(c, drew, cells, packs, layer, sprites, cam_x, cam_y, w, h, j) is None,
    ensures
        layer_fold(c, drew, cells, packs, layer, sprites, cam_x, cam_y, w, h, n) is None,
    decreases n - j,
{
    if j < n {
        lemma_layer_fold_none(c, drew, cells, packs, layer, sprites, cam_x, cam_y, w, h, j + 1, n);
    }
}

/// Once a fold over the layers has failed it stays failed.
proof fn lemma_tile_fold_none(
    c: Seq<u8>,
    drew: bool,
    cells: Seq<(u32, u32)>,
    packs: Seq<Option<&LotPack>>,
    layers: Seq<i32>,
    sprites: Map<Seq<char>, SpriteView>,
    cam_x: i32,
    cam_y: i32,
    w: u32,
    h: u32,
    i: nat,
    n: nat,
)
    requires
        i <= n,
        tile_fold(c, drew, cells, packs, layers, sprites, cam_x, cam_y, w, h, i) is None,
    ensures
        tile_fold(c, drew, cells, packs, layers, sprites, cam_x, cam_y, w, h, n) is None,
    decreases n - i,
{
    if i < n {
        lemma_tile_fold_none(c, drew, cells, packs, layers, sprites, cam_x, cam_y, w, h, i + 1, n);
    }
}

/// Whether some pixel of an RGBA buffer is not fully transparent.
pub fn has_opaque(px: &Vec<u8>) -> (r: bool)
    ensures
        r == any_opaque(px@),
{
    let mut k: usize = 0;
    while k < px.len()
        invariant
            k <= px@.len(),
            forall|i: int| 0 <= i < k && i % 4 == 3 ==> px@[i] == 0,
        decreases px@.len() - k,
    {
        if k % 4 == 3 && px[k] != 0 {
            return true;
        }
        k += 1;
    }
    false
}

/// Composites one `w × h` output tile at `(cam_x, cam_y)` on the plane of
/// the whole map: for each layer in turn, each loaded cell `packs[j]` at
/// `cells[j]` that stores the layer draws its sprites, as stated by
/// `tile_fold`. The tile is `Empty` when no cell was drawn or no pixel is
/// left visible.
pub fn compose_tile(
    cells: &Vec<(u32, u32)>,
    packs: &Vec<Option<&LotPack>>,
    layers: &Vec<i32>,
    sprites: &SpriteTable,
    cam_x: i32,
    cam_y: i32,
    w: u32,
    h: u32,
) -> (r: TilePixels)
    requires
        packs@.len() == cells@.len(),
        4 * (w * h) <= usize::MAX,
    ensures
        match tile_fold(Seq::new(4 * (w * h) as nat, |i: int| 0u8), false, cells@, packs@, layers@, sprites@, cam_x, cam_y, w, h, layers@.len()) {
            None => r is Overflow,
            Some((c, drew)) => if drew && any_opaque(c) {
                r matches TilePixels::Drawn(v) && v@ == c
            } else {
                r is Empty
            },
        },
{
    assert((w as int) * (h as int) <= 0xffff_ffffint * 0xffff_ffffint) by (nonlinear_arith)
        requires
            w <= 0xffff_ffffu32,
            h <= 0xffff_ffffu32,
    ;
    let mut canvas = zero_canvas(4 * (w as usize * h as usize));
    let ghost start = canvas@;
    let mut drew = false;
    let mut i: usize = 0;
    while i < layers.len()
        invariant
            i <= layers@.len(),
            packs@.len() == cells@.len(),
            canvas@.len() == 4 * (w * h),
            start == Seq::new(4 * (w * h) as nat, |i: int| 0u8),
            tile_fold(start, false, cells@, packs@, layers@, sprites@, cam_x, cam_y, w, h, i as nat) == Some((canvas@, drew)),
        decreases layers@.len() - i,
    {
        let layer = layers[i];
        let ghost c0 = canvas@;
        let ghost d0 = drew;
        let mut j: usize = 0;
        while j < cells.len()
            invariant
                i < layers@.len(),
                j <= cells@.len(),
                packs@.len() == cells@.len(),
                layer == layers@[i as int],
                canvas@.len() == 4 * (w * h),
                start == Seq::new(4 * (w * h) as nat, |i: int| 0u8),
                tile_fold(start, false, cells@, packs@, layers@, sprites@, cam_x, cam_y, w, h, i as nat) == Some((c0, d0)),
                layer_fold(c0, d0, cells@, packs@, layer, sprites@, cam_x, cam_y, w, h, j as nat) == Some((canvas@, drew)),
            decreases cells@.len() - j,
        {
            match draw_cell_step(canvas, drew, cells[j], packs[j], layer, sprites, cam_x, cam_y, w, h) {
                Some((c2, d2)) => {
                    canvas = c2;
                    drew = d2;
                },
                None => {
                    proof {
                        lemma_layer_fold_none(c0, d0, cells@, packs@, layer, sprites@, cam_x, cam_y, w, h, (j + 1) as nat, cells@.len());
                        lemma_tile_fold_none(start, false, cells@, packs@, layers@, sprites@, cam_x, cam_y, w, h, (i + 1) as nat, layers@.len());
                    }
                    return TilePixels::Overflow;
                },
            }
            j += 1;
        }
        i += 1;
    }
    if drew && has_opaque(&canvas) {
        TilePixels::Drawn(canvas)
    } else {
        TilePixels::Empty
    }
}


/// Drawing on from `(diag, sx)` keeps what was drawn before as the start of
/// the draws.
proof fn lemma_draws_keep_prefix(
    p: LotPackView,
    layer: i32,
    cam_x: i32,
    cam_y: i32,
    gx_lo: int,
    gx_hi: int,
    d_end: int,
    diag: int,
    sx: int,
    acc: Seq<Draw>,
)
    ensures
        draws_from(p, layer, cam_x, cam_y, gx_lo, gx_hi, d_end, diag, sx, acc) matches Some(r) ==> acc.len() <= r.len()
            && forall|k: int| 0 <= k < acc.len() ==> r[k] == acc[k],
    decreases d_end + 1 - diag, 256 - sx,
{
    if diag > d_end {
    } else if sx > sx_last(diag, gx_hi) {
        lemma_draws_keep_prefix(p, layer, cam_x, cam_y, gx_lo, gx_hi, d_end, diag + 1, sx_first(diag + 1, gx_lo), acc);
    } else {
        let sy = diag - sx;
        let stack = stack_at(p, sx, sy, layer);
        if stack.len() == 0 {
            lemma_draws_keep_prefix(p, layer, cam_x, cam_y, gx_lo, gx_hi, d_end, diag, sx + 1, acc);
        } else {
            let (wx, wy) = project_spec(sx, sy, layer as int);
            if fits_i32(layer * 192) && fits_i32(wy) && fits_i32(wx - cam_x) && fits_i32(wy + 32) && fits_i32(wy + 32 - cam_y) {
                let bx = (wx - cam_x) as i32;
                let by = (wy + 32 - cam_y) as i32;
                let next = acc + stack.map_values(|tid: i32| Draw { tid, x: bx, y: by });
                lemma_draws_keep_prefix(p, layer, cam_x, cam_y, gx_lo, gx_hi, d_end, diag, sx + 1, next);
                if let Some(r) = draws_from(p, layer, cam_x, cam_y, gx_lo, gx_hi, d_end, diag, sx + 1, next) {
                    assert forall|k: int| 0 <= k < acc.len() implies r[k] == acc[k] by {
                        assert(next[k] == acc[k]);
                    }
                }
            }
        }
    }
}

/// Whether the draws hold, from position `k` on, one draw of each tile id of
/// `stack` in order, all anchored at `(x, y)`.
pub open spec fn draws_hold_stack(ds: Seq<Draw>, k: int, stack: Seq<i32>, x: int, y: int) -> bool {
    &&& 0 <= k
    &&& k + stack.len() <= ds.len()
    &&& forall|t: int| 0 <= t < stack.len() ==> #[trigger] ds[k + t] == Draw { tid: stack[t], x: x as i32, y: y as i32 }
}

/// Every non-empty square `(tx, ty)` at or after `(diag, sx)` in drawing
/// order, on a diagonal up to `d_end` and within the columns drawn on its
/// diagonal, has its tiles drawn at its anchor.
proof fn lemma_draws_cover(
    p: LotPackView,
    layer: i32,
    cam_x: i32,
    cam_y: i32,
    gx_lo: int,
    gx_hi: int,
    d_end: int,
    diag: int,
    sx: int,
    acc: Seq<Draw>,
    tx: int,
    ty: int,
)
    requires
        draws_from(p, layer, cam_x, cam_y, gx_lo, gx_hi, d_end, diag, sx, acc) is Some,
        diag <= tx + ty <= d_end,
        tx + ty == diag ==> sx <= tx,
        sx_first(tx + ty, gx_lo) <= tx <= sx_last(tx + ty, gx_hi),
        stack_at(p, tx, ty, layer).len() > 0,
    ensures
        exists|k: int|
            #[trigger] draws_hold_stack(
                draws_from(p, layer, cam_x, cam_y, gx_lo, gx_hi, d_end, diag, sx, acc)->0,
                k,
                stack_at(p, tx, ty, layer),
                project_spec(tx, ty, layer as int).0 - cam_x,
                project_spec(tx, ty, layer as int).1 + 32 - cam_y,
            ),
    decreases d_end + 1 - diag, 256 - sx,
{
    if sx > sx_last(diag, gx_hi) {
        lemma_draws_cover(p, layer, cam_x, cam_y, gx_lo, gx_hi, d_end, diag + 1, sx_first(diag + 1, gx_lo), acc, tx, ty);
    } else {
        let sy = diag - sx;
        let stack = stack_at(p, sx, sy, layer);
        if stack.len() == 0 {
            lemma_draws_cover(p, layer, cam_x, cam_y, gx_lo, gx_hi, d_end, diag, sx + 1, acc, tx, ty);
        } else {
            let (wx, wy) = project_spec(sx, sy, layer as int);
            let bx = (wx - cam_x) as i32;
            let by = (wy + 32 - cam_y) as i32;
            let added = stack.map_values(|tid: i32| Draw { tid, x: bx, y: by });
            let next = acc + added;
            if tx == sx && ty == sy {
                lemma_draws_keep_prefix(p, layer, cam_x, cam_y, gx_lo, gx_hi, d_end, diag, sx + 1, next);
                let r = draws_from(p, layer, cam_x, cam_y, gx_lo, gx_hi, d_end, diag, sx + 1, next)->0;
                assert forall|t: int| 0 <= t < stack.len() implies #[trigger] r[acc.len() + t] == Draw {
                    tid: stack[t],
                    x: (wx - cam_x) as i32,
                    y: (wy + 32 - cam_y) as i32,
                } by {
                    assert(next[acc.len() + t] == added[t]);
                }
                assert(draws_hold_stack(r, acc.len() as int, stack, wx - cam_x, wy + 32 - cam_y));
            } else {
                lemma_draws_cover(p, layer, cam_x, cam_y, gx_lo, gx_hi, d_end, diag, sx + 1, next, tx, ty);
            }
        }
    }
}

/// A viewport is drawn whole: every non-empty square of the cell whose
/// anchor lies within the viewport's columns (the sizes taken as `i32`) widened by half the widest
/// sprite (`MAX_SPRITE_W / 2` on each side) and whose level-0 anchor row
/// lies from the viewport's top edge down to the tallest sprite's height
/// (`MAX_SPRITE_H`) below its bottom edge has all its tiles drawn, in order,
/// at its anchor.
pub proof fn lemma_viewport_covers(
    p: LotPackView,
    cam_x: i32,
    cam_y: i32,
    view_w: u32,
    view_h: u32,
    layer: i32,
    sx: int,
    sy: int,
)
    requires
        0 <= sx < 256,
        0 <= sy < 256,
        p.squares[cell_square_index(p.layers, sx, sy, layer - p.header.min_layer)].len() > 0,
        -512 < (sx - sy) * 64 - cam_x <= signed(view_w) + 512,
        0 <= (sx + sy) * 32 + 32 - cam_y <= signed(view_h) + 1024,
        viewport_draws_spec(p, cam_x, cam_y, view_w, view_h, layer) is Some,
    ensures
        exists|k: int|
            #[trigger] draws_hold_stack(
                viewport_draws_spec(p, cam_x, cam_y, view_w, view_h, layer)->0,
                k,
                p.squares[cell_square_index(p.layers, sx, sy, layer - p.header.min_layer)],
                (sx - sy) * 64 - cam_x,
                (sx + sy) * 32 - layer * 192 + 32 - cam_y,
            ),
{
    let (gx_lo, gx_hi, d_lo, d_hi) = view_range(cam_x, cam_y, view_w, view_h)->0;
    let d0 = if d_lo >= 0 { d_lo } else { 0 };
    let d_end = if d_hi <= 510 { d_hi } else { 510 };
    let diag = sx + sy;
    let c = sx - sy;
    assert(gx_lo < c) by {
        assert(64 * gx_lo <= cam_x - 512);
    }
    assert(c <= gx_hi) by {
        assert(cam_x + signed(view_w) + 512 - 63 <= 64 * gx_hi);
    }
    assert(d_lo <= diag);
    assert(diag <= d_hi);
    assert(sx_first(diag, gx_lo) <= sx);
    assert(sx <= sx_last(diag, gx_hi));
    if d0 == diag {
        assert(sx_first(d0, gx_lo) <= sx);
    }
    lemma_draws_cover(p, layer, cam_x, cam_y, gx_lo, gx_hi, d_end, d0, sx_first(d0, gx_lo), Seq::empty(), sx, sy);
}


/// Cells sit side by side on the plane of the whole map: square `(lx, ly)`
/// of cell `(cx, cy)` is drawn where the plane's square
/// `(gx, gy) = (256 cx + lx, 256 cy + ly)` projects, at
/// `((gx - gy) 64, (gx + gy) 32 - 192 layer)`, less the camera (anchors sit
/// half a tile down). Every non-empty
/// square whose plane anchor lies within the viewport's columns widened by
/// half the widest sprite, and whose level-0 anchor row lies from the top
/// edge down to the tallest sprite's height below the bottom edge, has all
/// its tiles drawn there.
pub proof fn lemma_cell_draws_on_plane(
    p: LotPackView,
    cx: u32,
    cy: u32,
    cam_x: i32,
    cam_y: i32,
    w: u32,
    h: u32,
    layer: i32,
    lx: int,
    ly: int,
)
    requires
        0 <= lx < 256,
        0 <= ly < 256,
        p.squares[cell_square_index(p.layers, lx, ly, layer - p.header.min_layer)].len() > 0,
        -512 < ((signed(cx) * 256 + lx) - (signed(cy) * 256 + ly)) * 64 - cam_x <= signed(w) + 512,
        0 <= ((signed(cx) * 256 + lx) + (signed(cy) * 256 + ly)) * 32 + 32 - cam_y <= signed(h) + 1024,
        cell_draws_spec(p, cx, cy, cam_x, cam_y, w, h, layer) is Some,
    ensures
        exists|k: int|
            #[trigger] draws_hold_stack(
                cell_draws_spec(p, cx, cy, cam_x, cam_y, w, h, layer)->0,
                k,
                p.squares[cell_square_index(p.layers, lx, ly, layer - p.header.min_layer)],
                ((signed(cx) * 256 + lx) - (signed(cy) * 256 + ly)) * 64 - cam_x,
                ((signed(cx) * 256 + lx) + (signed(cy) * 256 + ly)) * 32 - layer * 192 + 32 - cam_y,
            ),
{
    let (ox, oy) = cell_offset(cx, cy);
    let lcx = (cam_x - ox) as i32;
    let lcy = (cam_y - oy) as i32;
    lemma_viewport_covers(p, lcx, lcy, w, h, layer, lx, ly);
    let (gx, gy) = project_spec(signed(cx) * 256 + lx, signed(cy) * 256 + ly, layer as int);
    assert((lx - ly) * 64 - lcx == gx - cam_x);
    assert((lx + ly) * 32 - layer * 192 + 32 - lcy == gy + 32 - cam_y);
    let ds = cell_draws_spec(p, cx, cy, cam_x, cam_y, w, h, layer)->0;
    let k = choose|k: int| #[trigger] draws_hold_stack(ds, k, stack_at(p, lx, ly, layer), (lx - ly) * 64 - lcx, (lx + ly) * 32 - layer * 192 + 32 - lcy);
    assert(draws_hold_stack(ds, k, stack_at(p, lx, ly, layer), gx - cam_x, gy + 32 - cam_y));
}

} // verus!
