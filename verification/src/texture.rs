//! Sprites cut from the page images of `.pack` atlases, stored by name.
use vstd::prelude::*;
use std::sync::Arc;
use crate::pack::{TexMeta, TexMetaView, SubSprite, blend_layout, blend_layout_spec, pack_head, page_at, read_pack_header, read_pack_page, sprite_offset_fits};
use crate::dzi::{overlaid, overlay_rgba, zero_canvas};
use crate::{ZError, ZResult};

verus! {

#[verifier::external_type_specification]
#[verifier::external_body]
#[verifier::reject_recursive_types(K)]
#[verifier::reject_recursive_types(V)]
#[verifier::reject_recursive_types(S)]
pub struct ExDashMap<K, V, S>(dashmap::DashMap<K, V, S>);

/// A sprite: `width × height` RGBA pixels, row-major, and the offset of its
/// top-left corner from the bottom-centre anchor of its square.
pub struct Sprite {
    pub width: u32,
    pub height: u32,
    pub pixels: Vec<u8>,
    pub ox: i32,
    pub oy: i32,
}

pub struct SpriteView {
    pub width: u32,
    pub height: u32,
    pub pixels: Seq<u8>,
    pub ox: i32,
    pub oy: i32,
}

impl View for Sprite {
    type V = SpriteView;

    open spec fn view(&self) -> SpriteView {
        SpriteView { width: self.width, height: self.height, pixels: self.pixels@, ox: self.ox, oy: self.oy }
    }
}

/// The sprites a `DashMap` holds, by name.
pub uninterp spec fn sprite_map(m: dashmap::DashMap<String, Arc<Sprite>>) -> Map<Seq<char>, SpriteView>;

/// The empty table.
pub open spec fn no_sprites() -> Map<Seq<char>, SpriteView> {
    Map::empty()
}

/// Calls `dashmap::DashMap::new`: an empty map.
#[verifier::external_body]
fn sprite_map_new() -> (r: dashmap::DashMap<String, Arc<Sprite>>)
    ensures
        sprite_map(r) == no_sprites(),
{
    dashmap::DashMap::new()
}


/// Calls `dashmap::DashMap::insert`, which stores `sprite` under `name`,
/// replacing what was stored there.
#[verifier::external_body]
fn sprite_map_insert(m: &mut dashmap::DashMap<String, Arc<Sprite>>, name: String, sprite: Sprite)
    ensures
        sprite_map(*final(m)) == sprite_map(*old(m)).insert(name@, sprite@),
{
    m.insert(name, Arc::new(sprite));
}

/// Calls `dashmap::DashMap::get` and clones the `Arc` it finds: the sprite
/// stored under `name`, if any.
#[verifier::external_body]
fn sprite_map_get(m: &dashmap::DashMap<String, Arc<Sprite>>, name: &str) -> (r: Option<Arc<Sprite>>)
    ensures
        match sprite_map(*m).get(name@) {
            Some(v) => r matches Some(s) && s@ == v,
            None => r is None,
        },
{
    m.get(name).map(|e| e.value().clone())
}

/// Calls `dashmap::DashMap::len`: the number of names stored.
#[verifier::external_body]
fn sprite_map_len(m: &dashmap::DashMap<String, Arc<Sprite>>) -> (r: usize)
    ensures
        r == sprite_map(*m).len(),
{
    m.len()
}

/// The pixels of an image file, decoded to RGBA: width, height and
/// `4 × width × height` bytes, row-major; `None` when the bytes are not an
/// image that can be decoded.
pub uninterp spec fn image_rgba(data: Seq<u8>) -> Option<(u32, u32, Seq<u8>)>;

/// Calls `image::load_from_memory`, converts the result with `to_rgba8` and
/// takes its raw buffer, whose length is four bytes per pixel.
#[verifier::external_body]
pub fn decode_image(data: &[u8]) -> (r: Option<(u32, u32, Vec<u8>)>)
    ensures
        match image_rgba(data@) {
            None => r is None,
            Some((w, h, px)) => r matches Some((w2, h2, p2)) && w2 == w && h2 == h && p2@ == px,
        },
        r matches Some((w, h, px)) ==> px@.len() == 4 * (w * h),
{
    match image::load_from_memory(data) {
        Ok(img) => {
            let rgba = img.to_rgba8();
            Some((rgba.width(), rgba.height(), rgba.into_raw()))
        },
        Err(_) => None,
    }
}

/// The rectangle `(x, y, w, h)` clamped to a `iw × ih` image: the corner
/// moved inside, the sides cut at the edges.
pub open spec fn crop_rect(iw: u32, ih: u32, x: u32, y: u32, w: u32, h: u32) -> (u32, u32, u32, u32) {
    let cx = if x <= iw { x } else { iw };
    let cy = if y <= ih { y } else { ih };
    let cw = if w <= iw - cx { w } else { (iw - cx) as u32 };
    let ch = if h <= ih - cy { h } else { (ih - cy) as u32 };
    (cx, cy, cw, ch)
}

/// The RGBA bytes of the `w × h` rectangle at `(x, y)` of an image `iw`
/// pixels wide, row-major.
pub open spec fn crop_pixels(iw: u32, px: Seq<u8>, x: u32, y: u32, w: u32, h: u32) -> Seq<u8> {
    Seq::new(
        4 * (w * h) as nat,
        |i: int| px[((y + (i / 4) / (w as int)) * iw + x + (i / 4) % (w as int)) * 4 + i % 4],
    )
}

/// Copies the pixels of a rectangle inside an image.
fn crop_exact(iw: u32, ih: u32, px: &Vec<u8>, x: u32, y: u32, w: u32, h: u32) -> (r: Vec<u8>)
    requires
        px@.len() == 4 * (iw * ih),
        x + w <= iw,
        y + h <= ih,
    ensures
        r@ == crop_pixels(iw, px@, x, y, w, h),
{
    proof {
        assert(w * h <= iw * ih) by (nonlinear_arith)
            requires
                w <= iw,
                h <= ih,
        ;
    }
    let total = px.len();
    proof {
        assert(4 * (w * h) <= 4 * (iw * ih));
    }
    let n = 4 * (w as usize * h as usize);
    let mut out: Vec<u8> = Vec::new();
    let mut k: usize = 0;
    while k < n
        invariant
            k <= n,
            n == 4 * (w * h),
            w * h <= iw * ih,
            total == px@.len(),
            px@.len() == 4 * (iw * ih),
            x + w <= iw,
            y + h <= ih,
            out@ == crop_pixels(iw, px@, x, y, w, h).take(k as int),
        decreases n - k,
    {
        let p = k / 4;
        proof {
            assert(w > 0) by (nonlinear_arith)
                requires
                    p < w * h,
            ;
        }
        let row = p / w as usize;
        let col = p % w as usize;
        proof {
            assert(row < h) by (nonlinear_arith)
                requires
                    w > 0,
                    row == (p as int) / (w as int),
                    p < w * h,
            ;
            assert((y + row) * iw + x + col < iw * ih) by (nonlinear_arith)
                requires
                    row < h,
                    col < w,
                    x + w <= iw,
                    y + h <= ih,
            ;
            assert((y + row) * iw <= (y + row) * iw + x + col);
        }
        let idx = ((y as usize + row) * iw as usize + x as usize + col) * 4 + k % 4;
        out.push(px[idx]);
        proof {
            assert(out@ =~= crop_pixels(iw, px@, x, y, w, h).take(k + 1));
        }
        k += 1;
    }
    proof {
        assert(out@ =~= crop_pixels(iw, px@, x, y, w, h));
    }
    out
}

/// The sprite a texture record cuts from its page: the record's rectangle
/// clamped to the page, and its offset from the bottom centre.
pub open spec fn sprite_of(iw: u32, ih: u32, px: Seq<u8>, m: TexMetaView) -> SpriteView {
    let (x, y, w, h) = crop_rect(iw, ih, m.x as u32, m.y as u32, m.w as u32, m.h as u32);
    SpriteView {
        width: w,
        height: h,
        pixels: crop_pixels(iw, px, x, y, w, h),
        ox: (m.ox - (m.ow as int) / 2) as i32,
        oy: (m.oy - m.oh) as i32,
    }
}

/// The table after storing the sprites of `metas` in order, later records
/// replacing earlier ones of the same name: `Err` with the table so far at
/// the first record whose offset leaves `i32`.
pub open spec fn metas_into(
    metas: Seq<TexMetaView>,
    iw: u32,
    ih: u32,
    px: Seq<u8>,
    m: Map<Seq<char>, SpriteView>,
) -> Result<Map<Seq<char>, SpriteView>, Map<Seq<char>, SpriteView>>
    decreases metas.len(),
{
    if metas.len() == 0 {
        Ok(m)
    } else if !sprite_offset_fits(metas[0]) {
        Err(m)
    } else {
        metas_into(metas.drop_first(), iw, ih, px, m.insert(metas[0].name, sprite_of(iw, ih, px, metas[0])))
    }
}

/// The outcome and the table after loading `k` more pages from `pos`: each
/// page's records are read, its image decoded, and its sprites stored.
pub open spec fn pages_into(
    d: Seq<u8>,
    pos: int,
    k: nat,
    version: u32,
    m: Map<Seq<char>, SpriteView>,
) -> (Result<(), ZError>, Map<Seq<char>, SpriteView>)
    decreases k,
{
    if k == 0 {
        (Ok(()), m)
    } else {
        match page_at(d, pos, version) {
            Err(e) => (Err(e), m),
            Ok((pg, o)) => match image_rgba(d.subrange(pg.png_start, pg.png_end)) {
                None => (Err(ZError::Image), m),
                Some((iw, ih, px)) => match metas_into(pg.metas, iw, ih, px, m) {
                    Err(m2) => (Err(ZError::InvalidData), m2),
                    Ok(m2) => pages_into(d, o, (k - 1) as nat, version, m2),
                },
            },
        }
    }
}

/// The outcome and the table after loading a whole pack file into `m`.
pub open spec fn load_pack_spec(d: Seq<u8>, m: Map<Seq<char>, SpriteView>) -> (Result<(), ZError>, Map<Seq<char>, SpriteView>) {
    match pack_head(d) {
        Err(e) => (Err(e), m),
        Ok((version, pages, pos)) => pages_into(d, pos, pages as nat, version, m),
    }
}

/// Sprites by name.
pub struct SpriteTable {
    sprites: dashmap::DashMap<String, Arc<Sprite>>,
}

impl View for SpriteTable {
    type V = Map<Seq<char>, SpriteView>;

    closed spec fn view(&self) -> Map<Seq<char>, SpriteView> {
        sprite_map(self.sprites)
    }
}

/// Whether a sprite holds four bytes for each of its pixels.
pub open spec fn sprite_wf(s: SpriteView) -> bool {
    s.pixels.len() == 4 * (s.width * s.height)
}

impl SpriteTable {
    /// Finitely many names, each with a sprite of four bytes per pixel.
    #[verifier::type_invariant]
    closed spec fn inv(&self) -> bool {
        &&& sprite_map(self.sprites).dom().finite()
        &&& forall|n: Seq<char>| #[trigger] sprite_map(self.sprites).contains_key(n) ==> sprite_wf(sprite_map(self.sprites)[n])
    }

    /// An empty table.
    pub fn new() -> (r: Self)
        ensures
            r@ == no_sprites(),
    {
        SpriteTable { sprites: sprite_map_new() }
    }

    /// The sprite stored under `name`.
    pub fn get(&self, name: &str) -> (r: Option<Arc<Sprite>>)
        ensures
            match self@.get(name@) {
                Some(v) => r matches Some(s) && s@ == v,
                None => r is None,
            },
            r matches Some(s) ==> sprite_wf(s@),
            self@.dom().finite(),
    {
        proof {
            use_type_invariant(self);
        }
        sprite_map_get(&self.sprites, name)
    }

    /// Stores `sprite` under `name`, replacing what was there: the number
    /// of names grows by one exactly when `name` was absent.
    pub fn insert(&mut self, name: String, sprite: Sprite)
        requires
            sprite_wf(sprite@),
        ensures
            final(self)@ == old(self)@.insert(name@, sprite@),
            final(self)@.dom().finite(),
            final(self)@.len() == old(self)@.len() + (if old(self)@.contains_key(name@) { 0int } else { 1int }),
    {
        proof {
            use_type_invariant(&*self);
        }
        let mut m = sprite_map_new();
        std::mem::swap(&mut m, &mut self.sprites);
        sprite_map_insert(&mut m, name, sprite);
        self.sprites = m;
        proof {
            if old(self)@.contains_key(name@) {
                assert(old(self)@.insert(name@, sprite@).dom() =~= old(self)@.dom());
            }
        }
    }

    /// The number of names stored, of which there are finitely many.
    pub fn len(&self) -> (r: usize)
        ensures
            self@.dom().finite(),
            r == self@.len(),
    {
        proof {
            use_type_invariant(self);
        }
        sprite_map_len(&self.sprites)
    }

    /// Whether no name is stored.
    pub fn is_empty(&self) -> (r: bool)
        ensures
            r == (self@.len() == 0),
    {
        sprite_map_len(&self.sprites) == 0
    }

    /// Stores the sprites of the texture records `metas`, cut from a decoded
    /// `iw × ih` page; `false` at the first record whose offset leaves `i32`.
    fn store_page(&mut self, metas: &Vec<TexMeta>, iw: u32, ih: u32, px: &Vec<u8>) -> (r: bool)
        requires
            px@.len() == 4 * (iw * ih),
        ensures
            match metas_into(metas@.map_values(|m: TexMeta| m@), iw, ih, px@, old(self)@) {
                Ok(m) => r && final(self)@ == m,
                Err(m) => !r && final(self)@ == m,
            },
    {
        let ghost all = metas@.map_values(|m: TexMeta| m@);
        let n = metas.len();
        let mut i: usize = 0;
        assert(all.subrange(0, n as int) =~= all);
        while i < n
            invariant
                i <= n,
                n == all.len(),
                n == metas@.len(),
                all == metas@.map_values(|m: TexMeta| m@),
                px@.len() == 4 * (iw * ih),
                metas_into(all, iw, ih, px@, old(self)@) == metas_into(all.subrange(i as int, n as int), iw, ih, px@, self@),
            decreases n - i,
        {
            let m = &metas[i];
            let ghost rest = all.subrange(i as int, n as int);
            assert(rest[0] == m@);
            assert(rest.drop_first() =~= all.subrange(i + 1, n as int));
            if !offset_fits(m) {
                return false;
            }
            let cx = if m.x as u32 <= iw { m.x as u32 } else { iw };
            let cy = if m.y as u32 <= ih { m.y as u32 } else { ih };
            let cw = if m.w as u32 <= iw - cx { m.w as u32 } else { iw - cx };
            let ch = if m.h as u32 <= ih - cy { m.h as u32 } else { ih - cy };
            let pixels = crop_exact(iw, ih, px, cx, cy, cw, ch);
            let (ox, oy) = m.sprite_offset();
            let sprite = Sprite { width: cw, height: ch, pixels, ox, oy };
            assert(sprite@ == sprite_of(iw, ih, px@, m@));
            self.insert(m.name.clone(), sprite);
            i += 1;
        }
        assert(all.subrange(n as int, n as int) =~= Seq::<TexMetaView>::empty());
        true
    }

    /// Loads every page of the pack file `data`: its texture records are
    /// read, its image decoded, and its sprites stored, later records
    /// replacing earlier ones of the same name. The outcome and the table
    /// are those of `load_pack_spec`: after a failure the table keeps the
    /// sprites stored before it.
    pub fn load_pack(&mut self, data: &[u8]) -> (r: ZResult<()>)
        ensures
            ({
                let (res, m) = load_pack_spec(data@, old(self)@);
                r == res && final(self)@ == m
            }),
    {
        let (version, page_num, first) = match read_pack_header(data) {
            Ok(v) => v,
            Err(e) => return Err(e),
        };
        let mut pos = first;
        let mut k: u32 = 0;
        while k < page_num
            invariant
                k <= page_num,
                pos <= data@.len(),
                load_pack_spec(data@, old(self)@) == pages_into(data@, pos as int, (page_num - k) as nat, version, self@),
            decreases page_num - k,
        {
            let (page, next) = match read_pack_page(data, pos, version) {
                Ok(v) => v,
                Err(e) => return Err(e),
            };
            let image = slice_range(data, page.png_start, page.png_end);
            let (iw, ih, px) = match decode_image(image) {
                Some(v) => v,
                None => return Err(ZError::Image),
            };
            if !self.store_page(&page.metas, iw, ih, &px) {
                return Err(ZError::InvalidData);
            }
            pos = next;
            k += 1;
        }
        Ok(())
    }
}

/// Whether the offset of a texture record stays within `i32`.
fn offset_fits(m: &TexMeta) -> (r: bool)
    ensures
        r == sprite_offset_fits(m@),
{
    let half: i64 = if m.ow >= 0 {
        m.ow as i64 / 2
    } else {
        -((-(m.ow as i64) + 1) / 2)
    };
    let a = m.ox as i64 - half;
    let b = m.oy as i64 - m.oh as i64;
    i32::MIN as i64 <= a && a <= i32::MAX as i64 && i32::MIN as i64 <= b && b <= i32::MAX as i64
}

/// The bytes `data[start..end]`.
fn slice_range(data: &[u8], start: usize, end: usize) -> (r: &[u8])
    requires
        start <= end <= data@.len(),
    ensures
        r@ == data@.subrange(start as int, end as int),
{
    &data[start..end]
}


/// The texts of a sequence of string slices.
pub open spec fn str_views(ns: Seq<&str>) -> Seq<Seq<char>> {
    ns.map_values(|n: &str| n@)
}

/// The sprites found in `m` under `names`, in the order of the names; names
/// with no sprite are skipped.
pub open spec fn found_sprites(m: Map<Seq<char>, SpriteView>, names: Seq<Seq<char>>) -> Seq<SpriteView>
    decreases names.len(),
{
    if names.len() == 0 {
        Seq::empty()
    } else {
        let before = found_sprites(m, names.drop_last());
        if m.contains_key(names.last()) {
            before.push(m[names.last()])
        } else {
            before
        }
    }
}

/// The size and offset of each sprite.
pub open spec fn sub_dims(s: Seq<SpriteView>) -> Seq<SubSprite> {
    s.map_values(|v: SpriteView| SubSprite { width: v.width, height: v.height, ox: v.ox, oy: v.oy })
}

/// The `w × h` canvas after the first `k` sprites are blended onto it, each
/// with its top-left corner at its position.
pub open spec fn blend_fold(canvas: Seq<u8>, w: u32, h: u32, subs: Seq<SpriteView>, pos: Seq<(i32, i32)>, k: nat) -> Seq<u8>
    decreases k,
{
    if k == 0 {
        canvas
    } else {
        let c = blend_fold(canvas, w, h, subs, pos, (k - 1) as nat);
        let s = subs[k - 1];
        overlaid(c, w, h, s.pixels, s.width, s.height, pos[k - 1].0 as i64, pos[k - 1].1 as i64)
    }
}

/// A sprite blended from the sprites found under `names`: a transparent
/// canvas laid out by `blend_layout_spec`, each sprite drawn at its place;
/// `None` when no sprite is found, or when the layout leaves `i32` or the
/// canvas leaves memory.
pub open spec fn blend_spec(m: Map<Seq<char>, SpriteView>, names: Seq<Seq<char>>) -> Option<SpriteView> {
    let subs = found_sprites(m, names);
    match blend_layout_spec(sub_dims(subs)) {
        None => None,
        Some(l) => if 4 * (l.width * l.height) <= usize::MAX {
            Some(SpriteView {
                width: l.width,
                height: l.height,
                pixels: blend_fold(Seq::new(4 * (l.width * l.height) as nat, |i: int| 0u8), l.width, l.height, subs, l.positions, subs.len()),
                ox: l.ox,
                oy: l.oy,
            })
        } else {
            None
        },
    }
}

/// Composites a multi-cell sprite (such as a tree) from the sprites stored
/// under `names`, each at its own offset from a shared anchor, as stated by
/// `blend_spec`.
pub fn blend_sprite(table: &SpriteTable, names: &[&str]) -> (r: Option<Sprite>)
    ensures
        match blend_spec(table@, str_views(names@)) {
            None => r is None,
            Some(v) => r matches Some(s) && s@ == v,
        },
        r matches Some(s) ==> sprite_wf(s@),
{
    let ghost m = table@;
    let ghost ns = str_views(names@);
    let mut subs: Vec<Arc<Sprite>> = Vec::new();
    let mut dims: Vec<SubSprite> = Vec::new();
    let mut i: usize = 0;
    while i < names.len()
        invariant
            i <= names@.len(),
            m == table@,
            ns == str_views(names@),
            subs@.len() == found_sprites(m, ns.take(i as int)).len(),
            forall|j: int| 0 <= j < subs@.len() ==> (#[trigger] subs@[j])@ == found_sprites(m, ns.take(i as int))[j],
            forall|j: int| 0 <= j < subs@.len() ==> sprite_wf((#[trigger] subs@[j])@),
            dims@ == sub_dims(found_sprites(m, ns.take(i as int))),
        decreases names@.len() - i,
    {
        proof {
            assert(ns.take(i + 1).drop_last() =~= ns.take(i as int));
            assert(ns.take(i + 1).last() == names@[i as int]@);
        }
        match table.get(names[i]) {
            Some(s) => {
                dims.push(SubSprite { width: s.width, height: s.height, ox: s.ox, oy: s.oy });
                subs.push(s);
            },
            None => {},
        }
        proof {
            assert(dims@ =~= sub_dims(found_sprites(m, ns.take(i + 1))));
        }
        i += 1;
    }
    proof {
        assert(ns.take(names@.len() as int) =~= ns);
    }
    let ghost found = found_sprites(m, ns);
    let layout = match blend_layout(dims.as_slice()) {
        Some(l) => l,
        None => return None,
    };
    let w = layout.width;
    let h = layout.height;
    assert((w as int) * (h as int) <= 0xffff_ffffint * 0xffff_ffffint) by (nonlinear_arith)
        requires
            w <= 0xffff_ffffu32,
            h <= 0xffff_ffffu32,
    ;
    let area = (w as u128) * (h as u128);
    if area > (usize::MAX as u128) / 4 {
        return None;
    }
    let n = 4 * (area as usize);
    let mut canvas = zero_canvas(n);
    proof {
        crate::pack::lemma_blend_layout_holds_subs(dims@);
    }
    let ghost start = canvas@;
    let mut k: usize = 0;
    while k < subs.len()
        invariant
            k <= subs@.len(),
            subs@.len() == found.len(),
            layout.positions@.len() == found.len(),
            forall|j: int| 0 <= j < subs@.len() ==> (#[trigger] subs@[j])@ == found[j],
            forall|j: int| 0 <= j < subs@.len() ==> sprite_wf((#[trigger] subs@[j])@),
            canvas@.len() == 4 * (w * h),
            start == Seq::new(4 * (w * h) as nat, |i: int| 0u8),
            canvas@ == blend_fold(start, w, h, found, layout.positions@, k as nat),
        decreases subs@.len() - k,
    {
        let s = &subs[k];
        let (x, y) = layout.positions[k];
        canvas = overlay_rgba(canvas, w, h, &s.pixels, s.width, s.height, x as i64, y as i64);
        k += 1;
    }
    Some(Sprite { width: w, height: h, pixels: canvas, ox: layout.ox, oy: layout.oy })
}


/// Once `insert` has stored `s` under `name` (taking `before` to `after`),
/// `get` gives `s` under `name` and what it gave before under every other
/// name, and the table holds one name more exactly when `name` was new.
pub proof fn lemma_insert_then_get(before: SpriteTable, after: SpriteTable, name: Seq<char>, s: SpriteView, other: Seq<char>)
    requires
        before@.dom().finite(),
        after@ == before@.insert(name, s),
    ensures
        after@.get(name) == Some(s),
        other != name ==> after@.get(other) == before@.get(other),
        after@.len() == before@.len() + (if before@.contains_key(name) { 0int } else { 1int }),
        after@.len() > 0,
{
    if before@.contains_key(name) {
        assert(before@.insert(name, s).dom() =~= before@.dom());
    }
}

} // verus!
