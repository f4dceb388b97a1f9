//! Reader for `.pack` texture atlases: pages of PNG images, each with the
//! named sprite rectangles cut from it.
use vstd::prelude::*;
use vstd::utf8::*;
use crate::header::{fits_i32, read_i32_spec, read_u32_spec};
use crate::le::{fits4, i32_at, le_i32_at, u32_at};
use crate::text::decode_str;
use crate::{ZError, ZResult};

verus! {

/// The magic at the start of versioned pack files.
pub open spec fn has_pzpk_magic(d: Seq<u8>) -> bool {
    d.len() >= 4 && d[0] == 0x50 && d[1] == 0x5a && d[2] == 0x50 && d[3] == 0x4b
}

/// A `u32` length at `pos` followed by that many bytes: the range of those bytes.
pub open spec fn bytes_with_len_spec(d: Seq<u8>, pos: int) -> Result<(int, int), ZError> {
    match read_u32_spec(d, pos) {
        Err(e) => Err(e),
        Ok((n, o)) => if o + n <= d.len() {
            Ok((o, o + n))
        } else {
            Err(ZError::Slice)
        },
    }
}

/// Whether `pat` occurs in `d` at position `k`.
pub open spec fn window_at(d: Seq<u8>, k: int, pat: Seq<u8>) -> bool {
    0 <= k && k + pat.len() <= d.len() && d.subrange(k, k + pat.len()) == pat
}

/// Whether `k` is the first position at or after `pos` where `pat` occurs.
pub open spec fn is_first_window(d: Seq<u8>, pos: int, pat: Seq<u8>, k: int) -> bool {
    &&& pos <= k
    &&& window_at(d, k, pat)
    &&& forall|j: int| pos <= j < k ==> !window_at(d, j, pat)
}

/// The bytes from `pos` up to and including the first occurrence of `pat`.
pub open spec fn until_spec(d: Seq<u8>, pos: int, pat: Seq<u8>) -> Result<(int, int), ZError> {
    if exists|k: int| is_first_window(d, pos, pat, k) {
        let k = choose|k: int| is_first_window(d, pos, pat, k);
        Ok((pos, k + pat.len()))
    } else {
        Err(ZError::InvalidData)
    }
}

/// The page image of a version 0 pack ends with `0xDEADBEEF`, little-endian.
pub open spec fn png_terminator() -> Seq<u8> {
    seq![0xEFu8, 0xBEu8, 0xADu8, 0xDEu8]
}

/// The mathematical value of a [`TexMeta`].
pub struct TexMetaView {
    pub name: Seq<char>,
    pub x: i32,
    pub y: i32,
    pub w: i32,
    pub h: i32,
    pub ox: i32,
    pub oy: i32,
    pub ow: i32,
    pub oh: i32,
}

/// The texture record at `pos`: a length-prefixed UTF-8 name and eight `i32`
/// fields.
pub open spec fn meta_at(d: Seq<u8>, pos: int) -> Result<(TexMetaView, int), ZError> {
    match bytes_with_len_spec(d, pos) {
        Err(e) => Err(e),
        Ok((s, e)) => if !valid_utf8(d.subrange(s, e)) {
            Err(ZError::Utf8)
        } else if !(e + 32 <= d.len()) {
            Err(ZError::Slice)
        } else {
            Ok(
                (
                    TexMetaView {
                        name: decode_utf8(d.subrange(s, e)),
                        x: le_i32_at(d, e),
                        y: le_i32_at(d, e + 4),
                        w: le_i32_at(d, e + 8),
                        h: le_i32_at(d, e + 12),
                        ox: le_i32_at(d, e + 16),
                        oy: le_i32_at(d, e + 20),
                        ow: le_i32_at(d, e + 24),
                        oh: le_i32_at(d, e + 28),
                    },
                    e + 32,
                ),
            )
        },
    }
}

/// `k` more texture records read from `pos`.
pub open spec fn metas_from(d: Seq<u8>, pos: int, k: nat, done: Seq<TexMetaView>) -> Result<
    (Seq<TexMetaView>, int),
    ZError,
>
    decreases k,
{
    if k == 0 {
        Ok((done, pos))
    } else {
        match meta_at(d, pos) {
            Err(e) => Err(e),
            Ok((m, o)) => metas_from(d, o, (k - 1) as nat, done.push(m)),
        }
    }
}

/// The mathematical value of a [`PackPage`].
pub struct PackPageView {
    pub metas: Seq<TexMetaView>,
    pub png_start: int,
    pub png_end: int,
}

/// The page at `pos` of a pack of the given version, and the position after
/// it: a length-prefixed page name, the texture count, an alpha flag, the
/// texture records, then the page image (length-prefixed in version 1,
/// terminated by `0xDEADBEEF` in version 0).
pub open spec fn page_at(d: Seq<u8>, pos: int, version: u32) -> Result<(PackPageView, int), ZError> {
    match bytes_with_len_spec(d, pos) {
        Err(e) => Err(e),
        Ok((_s, o1)) => match read_u32_spec(d, o1) {
            Err(e) => Err(e),
            Ok((count, o2)) => match read_u32_spec(d, o2) {
                Err(e) => Err(e),
                Ok((_alpha, o3)) => match metas_from(d, o3, count as nat, Seq::empty()) {
                    Err(e) => Err(e),
                    Ok((metas, o4)) => {
                        let png = if version == 1 {
                            bytes_with_len_spec(d, o4)
                        } else if version == 0 {
                            until_spec(d, o4, png_terminator())
                        } else {
                            Err(ZError::InvalidData)
                        };
                        match png {
                            Err(e) => Err(e),
                            Ok((s, e)) => Ok((PackPageView { metas, png_start: s, png_end: e }, e)),
                        }
                    },
                },
            },
        },
    }
}

/// The version, the number of pages and the position of the first page.
/// Files that start with `PZPK` store a version after it; others are version
/// 0 and start with the page count.
pub open spec fn pack_head(d: Seq<u8>) -> Result<(u32, u32, int), ZError> {
    if d.len() < 4 {
        Err(ZError::Slice)
    } else {
        let vres = if has_pzpk_magic(d) {
            read_u32_spec(d, 4)
        } else {
            Ok((0u32, 0int))
        };
        match vres {
            Err(e) => Err(e),
            Ok((version, o1)) => match read_u32_spec(d, o1) {
                Err(e) => Err(e),
                Ok((pages, o2)) => Ok((version, pages, o2)),
            },
        }
    }
}

/// One texture's metadata within a page: where its pixels lie in the page
/// image and how it is anchored.
pub struct TexMeta {
    pub name: String,
    pub x: i32,
    pub y: i32,
    pub w: i32,
    pub h: i32,
    pub ox: i32,
    pub oy: i32,
    pub ow: i32,
    pub oh: i32,
}

impl View for TexMeta {
    type V = TexMetaView;

    open spec fn view(&self) -> TexMetaView {
        TexMetaView {
            name: self.name@,
            x: self.x,
            y: self.y,
            w: self.w,
            h: self.h,
            ox: self.ox,
            oy: self.oy,
            ow: self.ow,
            oh: self.oh,
        }
    }
}

/// Whether the sprite offsets of a texture stay within `i32`.
pub open spec fn sprite_offset_fits(m: TexMetaView) -> bool {
    fits_i32(m.ox - (m.ow as int) / 2) && fits_i32(m.oy - m.oh)
}

impl TexMeta {
    /// The offset of the sprite from its square's bottom-center anchor:
    /// `(ox - ow / 2, oy - oh)`, the halving rounding toward negative infinity.
    pub fn sprite_offset(&self) -> (r: (i32, i32))
        requires
            sprite_offset_fits(self@),
        ensures
            r.0 == self.ox - (self.ow as int) / 2,
            r.1 == self.oy - self.oh,
    {
        let half = if self.ow >= 0 {
            self.ow / 2
        } else {
            -((-(self.ow as i64) + 1) / 2) as i32
        };
        (self.ox - half, self.oy - self.oh)
    }
}

/// One page of a pack: its texture records and the byte range of its image.
pub struct PackPage {
    pub metas: Vec<TexMeta>,
    pub png_start: usize,
    pub png_end: usize,
}

impl View for PackPage {
    type V = PackPageView;

    open spec fn view(&self) -> PackPageView {
        PackPageView {
            metas: self.metas@.map_values(|m: TexMeta| m@),
            png_start: self.png_start as int,
            png_end: self.png_end as int,
        }
    }
}

/// Little-endian byte cursor over a pack file.
struct Reader<'a> {
    data: &'a [u8],
    pos: usize,
}

impl<'a> Reader<'a> {
    fn u32(&mut self) -> (r: ZResult<u32>)
        requires
            old(self).pos <= old(self).data@.len(),
        ensures
            final(self).data == old(self).data,
            final(self).pos <= final(self).data@.len(),
            match read_u32_spec(old(self).data@, old(self).pos as int) {
                Ok((v, o)) => r == Ok::<u32, ZError>(v) && final(self).pos == o,
                Err(e) => r == Err::<u32, ZError>(e) && final(self).pos == old(self).pos,
            },
    {
        if self.data.len() - self.pos >= 4 {
            let v = u32_at(self.data, self.pos);
            self.pos = self.pos + 4;
            Ok(v)
        } else {
            Err(ZError::Slice)
        }
    }

    fn i32(&mut self) -> (r: ZResult<i32>)
        requires
            old(self).pos <= old(self).data@.len(),
        ensures
            final(self).data == old(self).data,
            final(self).pos <= final(self).data@.len(),
            match read_i32_spec(old(self).data@, old(self).pos as int) {
                Ok((v, o)) => r == Ok::<i32, ZError>(v) && final(self).pos == o,
                Err(e) => r == Err::<i32, ZError>(e) && final(self).pos == old(self).pos,
            },
    {
        if self.data.len() - self.pos >= 4 {
            let v = i32_at(self.data, self.pos);
            self.pos = self.pos + 4;
            Ok(v)
        } else {
            Err(ZError::Slice)
        }
    }


    fn meta(&mut self) -> (r: ZResult<TexMeta>)
        requires
            old(self).pos <= old(self).data@.len(),
        ensures
            final(self).data == old(self).data,
            final(self).pos <= final(self).data@.len(),
            match meta_at(old(self).data@, old(self).pos as int) {
                Ok((m, o)) => r matches Ok(v) && v@ == m && final(self).pos == o,
                Err(e) => r matches Err(x) && x == e,
            },
    {
        let (s, e) = match self.bytes_with_len() {
            Ok(v) => v,
            Err(e) => return Err(e),
        };
        let name = match decode_str(&self.data[s..e]) {
            Some(t) => t.to_owned(),
            None => return Err(ZError::Utf8),
        };
        if self.data.len() - self.pos < 32 {
            return Err(ZError::Slice);
        }
        let x = match self.i32() { Ok(v) => v, Err(e) => return Err(e) };
        let y = match self.i32() { Ok(v) => v, Err(e) => return Err(e) };
        let w = match self.i32() { Ok(v) => v, Err(e) => return Err(e) };
        let h = match self.i32() { Ok(v) => v, Err(e) => return Err(e) };
        let ox = match self.i32() { Ok(v) => v, Err(e) => return Err(e) };
        let oy = match self.i32() { Ok(v) => v, Err(e) => return Err(e) };
        let ow = match self.i32() { Ok(v) => v, Err(e) => return Err(e) };
        let oh = match self.i32() { Ok(v) => v, Err(e) => return Err(e) };
        Ok(TexMeta { name, x, y, w, h, ox, oy, ow, oh })
    }

    fn metas(&mut self, count: u32) -> (r: ZResult<Vec<TexMeta>>)
        requires
            old(self).pos <= old(self).data@.len(),
        ensures
            final(self).data == old(self).data,
            final(self).pos <= final(self).data@.len(),
            match metas_from(old(self).data@, old(self).pos as int, count as nat, Seq::empty()) {
                Ok((ms, o)) => r matches Ok(v) && v@.map_values(|m: TexMeta| m@) == ms
                    && final(self).pos == o,
                Err(e) => r matches Err(x) && x == e,
            },
    {
        let ghost start = self.pos as int;
        let mut metas: Vec<TexMeta> = Vec::new();
        let mut i: u32 = 0;
        assert(metas@.map_values(|m: TexMeta| m@) =~= Seq::empty());
        while i < count
            invariant
                i <= count,
                start == old(self).pos as int,
                self.data == old(self).data,
                self.pos <= self.data@.len(),
                metas_from(self.data@, start, count as nat, Seq::empty()) == metas_from(
                    self.data@,
                    self.pos as int,
                    (count - i) as nat,
                    metas@.map_values(|m: TexMeta| m@),
                ),
            decreases count - i,
        {
            let ghost before = metas@.map_values(|m: TexMeta| m@);
            let m = match self.meta() {
                Ok(v) => v,
                Err(e) => return Err(e),
            };
            let ghost mv = m@;
            metas.push(m);
            assert(metas@.map_values(|m: TexMeta| m@) =~= before.push(mv));
            i += 1;
        }
        Ok(metas)
    }

    /// `u32` length prefix followed by that many bytes: their range.
    fn bytes_with_len(&mut self) -> (r: ZResult<(usize, usize)>)
        requires
            old(self).pos <= old(self).data@.len(),
        ensures
            final(self).data == old(self).data,
            final(self).pos <= final(self).data@.len(),
            match bytes_with_len_spec(old(self).data@, old(self).pos as int) {
                Ok((s, e)) => r == Ok::<(usize, usize), ZError>((s as usize, e as usize))
                    && final(self).pos == e,
                Err(e) => r == Err::<(usize, usize), ZError>(e),
            },
    {
        let n = match self.u32() {
            Ok(v) => v as usize,
            Err(e) => return Err(e),
        };
        if self.data.len() - self.pos < n {
            return Err(ZError::Slice);
        }
        let start = self.pos;
        self.pos = self.pos + n;
        Ok((start, self.pos))
    }

    /// Reads up to and including `pattern`: the range of those bytes.
    fn until(&mut self, pattern: &[u8]) -> (r: ZResult<(usize, usize)>)
        requires
            old(self).pos <= old(self).data@.len(),
            pattern@.len() > 0,
        ensures
            final(self).data == old(self).data,
            final(self).pos <= final(self).data@.len(),
            match until_spec(old(self).data@, old(self).pos as int, pattern@) {
                Ok((s, e)) => r == Ok::<(usize, usize), ZError>((s as usize, e as usize))
                    && final(self).pos == e,
                Err(e) => r == Err::<(usize, usize), ZError>(e) && final(self).pos == old(self).pos,
            },
    {
        let start = self.pos;
        let plen = pattern.len();
        let len = self.data.len();
        let mut k = start;
        while k < len && len - k >= plen
            invariant
                start <= k <= len,
                len == self.data@.len(),
                plen == pattern@.len(),
                plen > 0,
                start == old(self).pos,
                self.data == old(self).data,
                self.pos == old(self).pos,
                forall|j: int| start <= j < k ==> !window_at(self.data@, j, pattern@),
            decreases len - k,
        {
            let mut m: usize = 0;
            let mut same = true;
            while m < plen && same
                invariant
                    m <= plen,
                    plen == pattern@.len(),
                    k + plen <= len,
                    len == self.data@.len(),
                    forall|t: int| 0 <= t < m ==> self.data@[k + t] == pattern@[t],
                    !same ==> m < plen && self.data@[k + m] != pattern@[m as int],
                decreases plen - m + (if same { 1int } else { 0int }),
            {
                if self.data[k + m] != pattern[m] {
                    same = false;
                } else {
                    m += 1;
                }
            }
            if same {
                proof {
                    assert(self.data@.subrange(k as int, k + plen) =~= pattern@);
                    assert(is_first_window(self.data@, start as int, pattern@, k as int));
                    let c = choose|c: int| is_first_window(self.data@, start as int, pattern@, c);
                    if c < k {
                        assert(!window_at(self.data@, c, pattern@));
                    } else if k < c {
                        assert(!window_at(self.data@, k as int, pattern@));
                    }
                }
                self.pos = k + plen;
                return Ok((start, k + plen));
            }
            proof {
                assert(!window_at(self.data@, k as int, pattern@)) by {
                    if window_at(self.data@, k as int, pattern@) {
                        assert(self.data@.subrange(k as int, k + plen)[m as int] == self.data@[k + m]);
                    }
                }
            }
            k += 1;
        }
        proof {
            assert forall|c: int| !is_first_window(self.data@, start as int, pattern@, c) by {
                if is_first_window(self.data@, start as int, pattern@, c) {
                    if c < k {
                        assert(!window_at(self.data@, c, pattern@));
                    }
                }
            }
        }
        Err(ZError::InvalidData)
    }
}

/// Reads the start of a pack file: its version, its page count and the
/// position of the first page.
pub fn read_pack_header(data: &[u8]) -> (r: ZResult<(u32, u32, usize)>)
    ensures
        match pack_head(data@) {
            Ok((v, n, o)) => r == Ok::<(u32, u32, usize), ZError>((v, n, o as usize)),
            Err(e) => r == Err::<(u32, u32, usize), ZError>(e),
        },
{
    if data.len() < 4 {
        return Err(ZError::Slice);
    }
    let mut r = Reader { data, pos: 0 };
    let version = if !(data[0] == 0x50 && data[1] == 0x5a && data[2] == 0x50 && data[3] == 0x4b) {
        0
    } else {
        r.pos = r.pos + 4;
        match r.u32() {
            Ok(v) => v,
            Err(e) => return Err(e),
        }
    };
    let page_num = match r.u32() {
        Ok(v) => v,
        Err(e) => return Err(e),
    };
    Ok((version, page_num, r.pos))
}

/// Reads the page at `pos` of a pack of the given version; returns it with
/// the position of the next page.
pub fn read_pack_page(data: &[u8], pos: usize, version: u32) -> (r: ZResult<(PackPage, usize)>)
    requires
        pos <= data@.len(),
    ensures
        match page_at(data@, pos as int, version) {
            Ok((p, o)) => r matches Ok((v, vo)) && v@ == p && vo == o,
            Err(e) => r matches Err(x) && x == e,
        },
        r matches Ok((v, vo)) ==> vo <= data@.len() && v.png_start <= v.png_end <= data@.len(),
{
    let mut r = Reader { data, pos };
    match r.bytes_with_len() {
        Ok(_) => {},
        Err(e) => return Err(e),
    }
    let count = match r.u32() {
        Ok(v) => v,
        Err(e) => return Err(e),
    };
    let _has_alpha = match r.u32() {
        Ok(v) => v,
        Err(e) => return Err(e),
    };
    let metas = match r.metas(count) {
        Ok(v) => v,
        Err(e) => return Err(e),
    };
    let terminator: [u8; 4] = [0xEF, 0xBE, 0xAD, 0xDE];
    proof {
        assert(terminator@ =~= png_terminator());
    }
    let png = if version == 1 {
        r.bytes_with_len()
    } else if version == 0 {
        r.until(&terminator)
    } else {
        Err(ZError::InvalidData)
    };
    let (png_start, png_end) = match png {
        Ok(v) => v,
        Err(e) => return Err(e),
    };
    let page = PackPage { metas, png_start, png_end };
    Ok((page, r.pos))
}


/// The size of a sub-sprite and the offset of its top-left corner from the
/// bottom-centre anchor of its square.
#[derive(Debug, Clone, Copy, PartialEq, Eq, Structural)]
pub struct SubSprite {
    pub width: u32,
    pub height: u32,
    pub ox: i32,
    pub oy: i32,
}

/// Where the sub-sprites of a blended sprite go: a `width × height` canvas,
/// the offset of its top-left corner from the anchor, and the top-left
/// position of each sub-sprite inside the canvas.
pub struct BlendLayout {
    pub width: u32,
    pub height: u32,
    pub ox: i32,
    pub oy: i32,
    pub positions: Vec<(i32, i32)>,
}

/// The mathematical value of a [`BlendLayout`].
pub struct BlendLayoutView {
    pub width: u32,
    pub height: u32,
    pub ox: i32,
    pub oy: i32,
    pub positions: Seq<(i32, i32)>,
}

impl View for BlendLayout {
    type V = BlendLayoutView;

    open spec fn view(&self) -> BlendLayoutView {
        BlendLayoutView { width: self.width, height: self.height, ox: self.ox, oy: self.oy, positions: self.positions@ }
    }
}

pub open spec fn max_int(a: int, b: int) -> int {
    if a >= b { a } else { b }
}

/// How far the sub-sprites reach from the anchor `(left, up, right, down)`,
/// each at least zero.
pub open spec fn blend_extent(s: Seq<SubSprite>) -> (int, int, int, int)
    decreases s.len(),
{
    if s.len() == 0 {
        (0, 0, 0, 0)
    } else {
        let (l, u, r, b) = blend_extent(s.drop_last());
        let t = s.last();
        (
            max_int(l, max_int(-t.ox, 0)),
            max_int(u, max_int(-t.oy, 0)),
            max_int(r, max_int(t.ox + crate::world::signed(t.width), 0)),
            max_int(b, max_int(t.oy + crate::world::signed(t.height), 0)),
        )
    }
}

/// Whether the reach of each sub-sprite is computed within `i32`.
pub open spec fn subs_fit(s: Seq<SubSprite>) -> bool {
    forall|i: int|
        0 <= i < s.len() ==> {
            &&& (#[trigger] s[i]).ox != i32::MIN
            &&& s[i].oy != i32::MIN
            &&& fits_i32(s[i].ox + crate::world::signed(s[i].width))
            &&& fits_i32(s[i].oy + crate::world::signed(s[i].height))
        }
}

/// The layout of a blended sprite: a canvas twice as wide as the farther
/// horizontal reach and as tall as the vertical reach (each at least one
/// pixel), anchored at the bottom centre, each sub-sprite drawn at the anchor
/// plus its offset. `None` for no sub-sprites, or when that arithmetic
/// leaves `i32`.
pub open spec fn blend_layout_spec(s: Seq<SubSprite>) -> Option<BlendLayoutView> {
    let e = blend_extent(s);
    let m = max_int(e.0, e.2);
    let w = max_int(2 * m, 1);
    let ax = w / 2;
    let ay = e.1;
    if s.len() == 0 || !subs_fit(s) || !fits_i32(2 * m) || !fits_i32(e.1 + e.3) || !(forall|i: int|
        0 <= i < s.len() ==> fits_i32(ax + (#[trigger] s[i]).ox) && fits_i32(ay + s[i].oy)) {
        None
    } else {
        Some(BlendLayoutView {
            width: w as u32,
            height: max_int(e.1 + e.3, 1) as u32,
            ox: (-ax) as i32,
            oy: (-ay) as i32,
            positions: s.map_values(|t: SubSprite| ((ax + t.ox) as i32, (ay + t.oy) as i32)),
        })
    }
}

/// Lays out a sprite blended from sub-sprites, as stated by `blend_layout_spec`.
pub fn blend_layout(subs: &[SubSprite]) -> (r: Option<BlendLayout>)
    ensures
        match blend_layout_spec(subs@) {
            None => r is None,
            Some(v) => r matches Some(layout) && layout@ == v,
        },
{
    if subs.len() == 0 {
        return None;
    }
    let mut l: i32 = 0;
    let mut u: i32 = 0;
    let mut r: i32 = 0;
    let mut b: i32 = 0;
    let mut i: usize = 0;
    while i < subs.len()
        invariant
            i <= subs@.len(),
            (l as int, u as int, r as int, b as int) == blend_extent(subs@.take(i as int)),
            0 <= l && 0 <= u && 0 <= r && 0 <= b,
            subs_fit(subs@.take(i as int)),
        decreases subs@.len() - i,
    {
        let t = subs[i];
        let w = crate::world::signed_exec(t.width);
        let h = crate::world::signed_exec(t.height);
        proof {
            assert(subs@.take(i + 1).drop_last() =~= subs@.take(i as int));
        }
        if t.ox == i32::MIN || t.oy == i32::MIN || (w > 0 && t.ox > i32::MAX - w) || (w < 0 && t.ox < i32::MIN - w)
            || (h > 0 && t.oy > i32::MAX - h) || (h < 0 && t.oy < i32::MIN - h) {
            proof {
                assert(!subs_fit(subs@)) by {
                    assert(subs@[i as int] == t);
                }
            }
            return None;
        }
        let nl = if -t.ox >= 0 { -t.ox } else { 0 };
        let nu = if -t.oy >= 0 { -t.oy } else { 0 };
        let nr = if t.ox + w >= 0 { t.ox + w } else { 0 };
        let nb = if t.oy + h >= 0 { t.oy + h } else { 0 };
        if nl > l {
            l = nl;
        }
        if nu > u {
            u = nu;
        }
        if nr > r {
            r = nr;
        }
        if nb > b {
            b = nb;
        }
        proof {
            assert forall|j: int| 0 <= j < i + 1 implies {
                &&& (#[trigger] subs@.take(i + 1)[j]).ox != i32::MIN
                &&& subs@.take(i + 1)[j].oy != i32::MIN
                &&& fits_i32(subs@.take(i + 1)[j].ox + crate::world::signed(subs@.take(i + 1)[j].width))
                &&& fits_i32(subs@.take(i + 1)[j].oy + crate::world::signed(subs@.take(i + 1)[j].height))
            } by {
                if j < i {
                    assert(subs@.take(i + 1)[j] == subs@.take(i as int)[j]);
                }
            }
        }
        i += 1;
    }
    proof {
        assert(subs@.take(subs@.len() as int) =~= subs@);
    }
    let m = if l >= r { l } else { r };
    if m > 0x3fff_ffff || u > i32::MAX - b {
        return None;
    }
    let w = if 2 * m >= 1 { 2 * m } else { 1 };
    let ax = w / 2;
    let ay = u;
    let mut positions: Vec<(i32, i32)> = Vec::new();
    let mut k: usize = 0;
    while k < subs.len()
        invariant
            k <= subs@.len(),
            0 <= ax <= 0x3fff_ffff,
            0 <= ay,
            ax as int == max_int(2 * max_int(blend_extent(subs@).0, blend_extent(subs@).2), 1) / 2,
            ay as int == blend_extent(subs@).1,
            positions@.len() == k,
            forall|j: int| 0 <= j < k ==> fits_i32(ax + (#[trigger] subs@[j]).ox) && fits_i32(ay + subs@[j].oy),
            forall|j: int| 0 <= j < k ==> #[trigger] positions@[j] == ((ax + subs@[j].ox) as i32, (ay + subs@[j].oy) as i32),
        decreases subs@.len() - k,
    {
        let t = subs[k];
        if (t.ox > 0 && ax > i32::MAX - t.ox) || (t.oy > 0 && ay > i32::MAX - t.oy) {
            return None;
        }
        positions.push((ax + t.ox, ay + t.oy));
        k += 1;
    }
    let layout = BlendLayout {
        width: w as u32,
        height: if u + b >= 1 { (u + b) as u32 } else { 1 },
        ox: -ax,
        oy: -ay,
        positions,
    };
    proof {
        assert(layout.positions@ =~= subs@.map_values(|t: SubSprite| ((ax + t.ox) as i32, (ay + t.oy) as i32)));
    }
    Some(layout)
}


/// The reach of the sub-sprites covers each of them, and is never negative.
proof fn lemma_extent_covers(s: Seq<SubSprite>)
    ensures
        blend_extent(s).0 >= 0 && blend_extent(s).1 >= 0 && blend_extent(s).2 >= 0 && blend_extent(s).3 >= 0,
        forall|i: int|
            0 <= i < s.len() ==> {
                &&& blend_extent(s).0 >= -(#[trigger] s[i]).ox
                &&& blend_extent(s).1 >= -s[i].oy
                &&& blend_extent(s).2 >= s[i].ox + crate::world::signed(s[i].width)
                &&& blend_extent(s).3 >= s[i].oy + crate::world::signed(s[i].height)
            },
    decreases s.len(),
{
    if s.len() > 0 {
        lemma_extent_covers(s.drop_last());
        assert forall|i: int| 0 <= i < s.len() - 1 implies #[trigger] s[i] == s.drop_last()[i] by {}
    }
}

/// Blending keeps every sub-sprite at its own offset from the anchor, and
/// the canvas holds every sub-sprite whole.
pub proof fn lemma_blend_layout_holds_subs(s: Seq<SubSprite>)
    requires
        blend_layout_spec(s) is Some,
    ensures
        ({
            let v = blend_layout_spec(s)->0;
            &&& v.positions.len() == s.len()
            &&& forall|i: int|
                0 <= i < s.len() ==> {
                    &&& (#[trigger] v.positions[i]).0 + v.ox == s[i].ox
                    &&& v.positions[i].1 + v.oy == s[i].oy
                    &&& 0 <= v.positions[i].0
                    &&& v.positions[i].0 + crate::world::signed(s[i].width) <= v.width
                    &&& 0 <= v.positions[i].1
                    &&& v.positions[i].1 + crate::world::signed(s[i].height) <= v.height
                }
        }),
{
    lemma_extent_covers(s);
    let e = blend_extent(s);
    let m = max_int(e.0, e.2);
    let w = max_int(2 * m, 1);
    let ax = w / 2;
    assert(m >= 1 ==> ax == m);
    assert(m == 0 ==> ax == 0);
}

} // verus!
