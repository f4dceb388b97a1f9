//! Reader for `.lotheader` files: the tile name table, the rooms and
//! buildings of a map cell, and its zombie population grid.
use vstd::prelude::*;
use vstd::utf8::*;
use crate::le::{fits4, i32_at, le_i32_at, le_u32_at, u32_at};
use crate::text::{decode_str, find_byte, first_index, str_trim, trim};
use crate::{
    Building, BuildingView, LotHeader, LotHeaderView, Obj, Rect, Room, RoomView, ZError, ZResult,
    bytes_contents, bytes_copy_from_slice,
};

verus! {

/// The byte that ends each name in the header.
pub const NEWLINE: u8 = 10;

/// Bytes of the zombie population grid: 32 rows of 32 bytes.
pub const ZPOP_BYTES: usize = 1024;

/// Reads a `u32` at `off`: the value and the offset after it.
pub open spec fn read_u32_spec(d: Seq<u8>, off: int) -> Result<(u32, int), ZError> {
    if fits4(d, off) {
        Ok((le_u32_at(d, off), off + 4))
    } else {
        Err(ZError::Slice)
    }
}

/// Reads an `i32` at `off`: the value and the offset after it.
pub open spec fn read_i32_spec(d: Seq<u8>, off: int) -> Result<(i32, int), ZError> {
    if fits4(d, off) {
        Ok((le_i32_at(d, off), off + 4))
    } else {
        Err(ZError::Slice)
    }
}

/// The line that starts at `off`: the trimmed text before the next newline and
/// the offset just after that newline. `None` when no newline follows or the
/// text is not UTF-8.
pub open spec fn line_at(d: Seq<u8>, off: int) -> Option<(Seq<char>, int)> {
    let rest = d.subrange(off, d.len() as int);
    match first_index(rest, NEWLINE) {
        None => None,
        Some(i) => {
            let raw = rest.subrange(0, i);
            if valid_utf8(raw) {
                Some((trim(decode_utf8(raw)), off + i + 1))
            } else {
                None
            }
        },
    }
}

/// Up to `n` more tile names read from `off` after those in `done`; reading
/// stops at the first line that cannot be read.
pub open spec fn tiles_from(d: Seq<u8>, off: int, n: nat, done: Seq<Seq<char>>) -> (
    Seq<Seq<char>>,
    int,
)
    decreases n,
{
    if n == 0 {
        (done, off)
    } else {
        match line_at(d, off) {
            None => (done, off),
            Some((t, o)) => tiles_from(d, o, (n - 1) as nat, done.push(t)),
        }
    }
}

pub open spec fn fits_i32(v: int) -> bool {
    i32::MIN <= v <= i32::MAX
}

pub open spec fn min_i32(a: i32, b: i32) -> i32 {
    if a <= b {
        a
    } else {
        b
    }
}

pub open spec fn max_i32(a: i32, b: i32) -> i32 {
    if a >= b {
        a
    } else {
        b
    }
}

/// `(area, xmin, ymin, xmax, ymax)` of a room as its rectangles are added.
pub type Bounds = (i32, i32, i32, i32, i32);

/// The bounds after adding rectangle `r`; `None` when a sum or product leaves `i32`.
pub open spec fn grow_bounds(b: Bounds, r: Rect) -> Option<Bounds> {
    let (x, y, w, h) = (r.0 as int, r.1 as int, r.2 as int, r.3 as int);
    if fits_i32(w * h) && fits_i32(b.0 + w * h) && fits_i32(x + w) && fits_i32(y + h) {
        Some(
            (
                (b.0 + w * h) as i32,
                min_i32(b.1, r.0),
                min_i32(b.2, r.1),
                max_i32(b.3, (x + w) as i32),
                max_i32(b.4, (y + h) as i32),
            ),
        )
    } else {
        None
    }
}

/// The rectangle stored at `off`.
pub open spec fn rect_at(d: Seq<u8>, off: int) -> Rect {
    Rect(le_i32_at(d, off), le_i32_at(d, off + 4), le_i32_at(d, off + 8), le_i32_at(d, off + 12))
}

/// `k` more rectangles read from `off`, with the bounds they accumulate.
pub open spec fn rects_from(d: Seq<u8>, off: int, k: nat, b: Bounds, done: Seq<Rect>) -> Result<
    (Seq<Rect>, Bounds, int),
    ZError,
>
    decreases k,
{
    if k == 0 {
        Ok((done, b, off))
    } else if !(0 <= off && off + 16 <= d.len()) {
        Err(ZError::Slice)
    } else {
        let r = rect_at(d, off);
        match grow_bounds(b, r) {
            None => Err(ZError::InvalidData),
            Some(b2) => rects_from(d, off + 16, (k - 1) as nat, b2, done.push(r)),
        }
    }
}

/// `k` more objects read from `off`.
pub open spec fn objs_from(d: Seq<u8>, off: int, k: nat, done: Seq<Obj>) -> Result<
    (Seq<Obj>, int),
    ZError,
>
    decreases k,
{
    if k == 0 {
        Ok((done, off))
    } else if !(0 <= off && off + 12 <= d.len()) {
        Err(ZError::Slice)
    } else {
        let o = Obj(le_i32_at(d, off), le_i32_at(d, off + 4), le_i32_at(d, off + 8));
        objs_from(d, off + 12, (k - 1) as nat, done.push(o))
    }
}

/// The room that stands in the table when its name cannot be read.
pub open spec fn default_room() -> RoomView {
    RoomView {
        id: 0,
        name: Seq::empty(),
        layer: 0,
        area: 0,
        rects: Seq::empty(),
        objects: Seq::empty(),
        xmin: 0,
        ymin: 0,
        xmax: 0,
        ymax: 0,
    }
}

/// The room record with index `id` at `off`. When no name can be read there
/// the room is the default one and nothing is consumed. The bounding box
/// starts from the origin, so it always contains `(0, 0)`.
pub open spec fn room_at(d: Seq<u8>, off: int, id: usize) -> Result<(RoomView, int), ZError> {
    match line_at(d, off) {
        None => Ok((default_room(), off)),
        Some((name, o1)) => match read_i32_spec(d, o1) {
            Err(e) => Err(e),
            Ok((layer, o2)) => match read_u32_spec(d, o2) {
                Err(e) => Err(e),
                Ok((nr, o3)) => match rects_from(d, o3, nr as nat, (0, 0, 0, 0, 0), Seq::empty()) {
                    Err(e) => Err(e),
                    Ok((rects, b, o4)) => match read_i32_spec(d, o4) {
                        Err(e) => Err(e),
                        Ok((no, o5)) => if no < 0 {
                            Err(ZError::InvalidData)
                        } else {
                            match objs_from(d, o5, no as nat, Seq::empty()) {
                                Err(e) => Err(e),
                                Ok((objects, o6)) => Ok(
                                    (
                                        RoomView {
                                            id,
                                            name,
                                            layer,
                                            area: b.0,
                                            rects,
                                            objects,
                                            xmin: b.1,
                                            ymin: b.2,
                                            xmax: b.3,
                                            ymax: b.4,
                                        },
                                        o6,
                                    ),
                                ),
                            }
                        },
                    },
                },
            },
        },
    }
}

/// `n` more rooms read from `off`, the first with index `id`.
pub open spec fn rooms_from(d: Seq<u8>, off: int, n: nat, id: nat, done: Seq<RoomView>) -> Result<
    (Seq<RoomView>, int),
    ZError,
>
    decreases n,
{
    if n == 0 {
        Ok((done, off))
    } else {
        match room_at(d, off, id as usize) {
            Err(e) => Err(e),
            Ok((r, o)) => rooms_from(d, o, (n - 1) as nat, id + 1, done.push(r)),
        }
    }
}

/// `k` more `u32` values read from `off`.
pub open spec fn u32s_from(d: Seq<u8>, off: int, k: nat, done: Seq<u32>) -> Result<
    (Seq<u32>, int),
    ZError,
>
    decreases k,
{
    if k == 0 {
        Ok((done, off))
    } else if !fits4(d, off) {
        Err(ZError::Slice)
    } else {
        u32s_from(d, off + 4, (k - 1) as nat, done.push(le_u32_at(d, off)))
    }
}

/// `n` more buildings read from `off`, the first with index `id`: each is a
/// count followed by that many room ids.
pub open spec fn buildings_from(
    d: Seq<u8>,
    off: int,
    n: nat,
    id: nat,
    done: Seq<BuildingView>,
) -> Result<(Seq<BuildingView>, int), ZError>
    decreases n,
{
    if n == 0 {
        Ok((done, off))
    } else {
        match read_u32_spec(d, off) {
            Err(e) => Err(e),
            Ok((k, o1)) => match u32s_from(d, o1, k as nat, Seq::empty()) {
                Err(e) => Err(e),
                Ok((rooms, o2)) => buildings_from(
                    d,
                    o2,
                    (n - 1) as nat,
                    id + 1,
                    done.push(BuildingView { id: id as u32, rooms }),
                ),
            },
        }
    }
}

/// The zombie population grid at `off`: 32 chunks of 32 bytes.
pub open spec fn zpop_at(d: Seq<u8>, off: int) -> Result<Seq<Seq<u8>>, ZError> {
    if 0 <= off && off + 1024 <= d.len() {
        Ok(Seq::new(32, |i: int| d.subrange(off + 32 * i, off + 32 * i + 32)))
    } else {
        Err(ZError::Slice)
    }
}

/// Whether the data starts with the `LOTH` magic.
pub open spec fn has_loth_magic(d: Seq<u8>) -> bool {
    d.len() >= 4 && d[0] == 0x4c && d[1] == 0x4f && d[2] == 0x54 && d[3] == 0x48
}

/// The version and the offset after it, for a reader at `start`. Newer
/// files start with `LOTH` and store the version at the reader; older files
/// start with the version itself, and the reader stays where it is.
pub open spec fn version_at(d: Seq<u8>, start: int) -> Result<(u32, int), ZError> {
    if d.len() < 4 {
        Err(ZError::Slice)
    } else if has_loth_magic(d) {
        read_u32_spec(d, start)
    } else {
        Ok((le_u32_at(d, 0), start))
    }
}

/// The fields before the room table: version, tile names, width, height,
/// lowest layer, one past the highest layer, and the offset after them.
pub open spec fn header_head(d: Seq<u8>, start: int) -> Result<
    (u32, Seq<Seq<char>>, u32, u32, i32, i32, int),
    ZError,
> {
    match version_at(d, start) {
        Err(e) => Err(e),
        Ok((version, o1)) => match read_u32_spec(d, o1) {
            Err(e) => Err(e),
            Ok((nt, o2)) => {
                let (tiles, o3) = tiles_from(d, o2, nt as nat, Seq::empty());
                match read_u32_spec(d, o3) {
                    Err(e) => Err(e),
                    Ok((width, o4)) => match read_u32_spec(d, o4) {
                        Err(e) => Err(e),
                        Ok((height, o5)) => match read_i32_spec(d, o5) {
                            Err(e) => Err(e),
                            Ok((min_layer, o6)) => match read_i32_spec(d, o6) {
                                Err(e) => Err(e),
                                Ok((top, o7)) => if top == i32::MAX {
                                    Err(ZError::InvalidData)
                                } else {
                                    Ok((version, tiles, width, height, min_layer, (top + 1) as i32, o7))
                                },
                            },
                        },
                    },
                }
            },
        },
    }
}

/// The header that a `.lotheader` file holds, or why it cannot be read.
pub open spec fn parse_header(d: Seq<u8>, start: int) -> Result<LotHeaderView, ZError> {
    match header_head(d, start) {
        Err(e) => Err(e),
        Ok((version, tiles, width, height, min_layer, max_layer, o1)) => match read_u32_spec(
            d,
            o1,
        ) {
            Err(e) => Err(e),
            Ok((nr, o2)) => match rooms_from(d, o2, nr as nat, 0, Seq::empty()) {
                Err(e) => Err(e),
                Ok((rooms, o3)) => match read_u32_spec(d, o3) {
                    Err(e) => Err(e),
                    Ok((nb, o4)) => match buildings_from(d, o4, nb as nat, 0, Seq::empty()) {
                        Err(e) => Err(e),
                        Ok((buildings, o5)) => match zpop_at(d, o5) {
                            Err(e) => Err(e),
                            Ok(zpop) => Ok(
                                LotHeaderView {
                                    version,
                                    width,
                                    height,
                                    max_layer,
                                    min_layer,
                                    tiles,
                                    rooms,
                                    buildings,
                                    zpop,
                                },
                            ),
                        },
                    },
                },
            },
        },
    }
}

/// A cursor over the bytes of a `.lotheader` file.
#[derive(Debug, Copy, Clone)]
pub struct LotHeaderReader {
    offset: usize,
}

impl LotHeaderReader {
    /// Whether the reader is at byte 4, where a new reader starts.
    pub open spec fn is_fresh(&self) -> bool {
        self.offset() == 4
    }

    /// The byte at which the next read starts.
    pub closed spec fn offset(&self) -> int {
        self.offset as int
    }

    pub fn new() -> (r: Self)
        ensures
            r.offset() == 4,
    {
        Self { offset: 4 }
    }

    fn advance_offset(&mut self, offset: usize)
        requires
            old(self).offset + offset <= usize::MAX,
        ensures
            final(self).offset == old(self).offset + offset,
    {
        self.offset += offset;
    }

    fn read_u32(&mut self, data: &[u8]) -> (r: ZResult<u32>)
        ensures
            r is Ok ==> final(self).offset <= data@.len(),
            match read_u32_spec(data@, old(self).offset as int) {
                Ok((v, o)) => r == Ok::<u32, ZError>(v) && final(self).offset == o,
                Err(e) => r == Err::<u32, ZError>(e) && final(self).offset == old(self).offset,
            },
    {
        if self.offset <= data.len() && data.len() - self.offset >= 4 {
            let v = u32_at(data, self.offset);
            self.advance_offset(4);
            Ok(v)
        } else {
            Err(ZError::Slice)
        }
    }

    fn read_i32(&mut self, data: &[u8]) -> (r: ZResult<i32>)
        ensures
            r is Ok ==> final(self).offset <= data@.len(),
            match read_i32_spec(data@, old(self).offset as int) {
                Ok((v, o)) => r == Ok::<i32, ZError>(v) && final(self).offset == o,
                Err(e) => r == Err::<i32, ZError>(e) && final(self).offset == old(self).offset,
            },
    {
        if self.offset <= data.len() && data.len() - self.offset >= 4 {
            let v = i32_at(data, self.offset);
            self.advance_offset(4);
            Ok(v)
        } else {
            Err(ZError::Slice)
        }
    }


    #[inline]
    fn read_tiles(&mut self, data: &[u8], num_tiles: usize) -> (r: ZResult<Vec<String>>)
        requires
            old(self).offset <= data@.len(),
        ensures
            final(self).offset <= data@.len(),
            ({
                let (ts, o) = tiles_from(data@, old(self).offset as int, num_tiles as nat, Seq::empty());
                &&& r matches Ok(v) && v@.map_values(|s: String| s@) == ts
                &&& final(self).offset == o
            }),
    {
        let ghost start = self.offset as int;
        let mut output: Vec<String> = Vec::new();
        let mut i: usize = 0;
        let mut stopped = false;
        assert(output@.map_values(|s: String| s@) =~= Seq::empty());
        while i < num_tiles && !stopped
            invariant
                i <= num_tiles,
                self.offset <= data@.len(),
                tiles_from(data@, start, num_tiles as nat, Seq::empty()) == (if stopped {
                    (output@.map_values(|s: String| s@), self.offset as int)
                } else {
                    tiles_from(
                        data@,
                        self.offset as int,
                        (num_tiles - i) as nat,
                        output@.map_values(|s: String| s@),
                    )
                }),
            decreases num_tiles - i + (if stopped { 0int } else { 1int }),
        {
            let ghost before = output@.map_values(|s: String| s@);
            match self.maybe_string(data) {
                Some(tile_name) => {
                    output.push(tile_name);
                    assert(output@.map_values(|s: String| s@) =~= before.push(tile_name@));
                    i += 1;
                },
                None => {
                    stopped = true;
                },
            }
        }
        Ok(output)
    }

    /// Reads `num_rects` rectangles, returning them with the room bounds they give.
    fn read_rects(&mut self, data: &[u8], num_rects: u32) -> (r: ZResult<(Vec<Rect>, Bounds)>)
        requires
            old(self).offset <= data@.len(),
        ensures
            final(self).offset <= data@.len(),
            match rects_from(
                data@,
                old(self).offset as int,
                num_rects as nat,
                (0, 0, 0, 0, 0),
                Seq::empty(),
            ) {
                Ok((rects, b, o)) => r matches Ok((v, vb)) && v@ == rects && vb == b
                    && final(self).offset == o,
                Err(e) => r matches Err(x) && x == e,
            },
    {
        let ghost start = self.offset as int;
        let mut rects: Vec<Rect> = Vec::new();
        let mut area: i32 = 0;
        let mut xmin: i32 = 0;
        let mut ymin: i32 = 0;
        let mut xmax: i32 = 0;
        let mut ymax: i32 = 0;
        let mut k: u32 = 0;
        while k < num_rects
            invariant
                k <= num_rects,
                start == old(self).offset as int,
                self.offset <= data@.len(),
                rects_from(data@, start, num_rects as nat, (0, 0, 0, 0, 0), Seq::empty())
                    == rects_from(
                    data@,
                    self.offset as int,
                    (num_rects - k) as nat,
                    (area, xmin, ymin, xmax, ymax),
                    rects@,
                ),
            decreases num_rects - k,
        {
            let x = match self.read_i32(data) {
                Ok(v) => v,
                Err(e) => return Err(e),
            };
            let y = match self.read_i32(data) {
                Ok(v) => v,
                Err(e) => return Err(e),
            };
            let w = match self.read_i32(data) {
                Ok(v) => v,
                Err(e) => return Err(e),
            };
            let h = match self.read_i32(data) {
                Ok(v) => v,
                Err(e) => return Err(e),
            };
            let wh = match w.checked_mul(h) {
                Some(v) => v,
                None => return Err(ZError::InvalidData),
            };
            area = match area.checked_add(wh) {
                Some(v) => v,
                None => return Err(ZError::InvalidData),
            };
            let x_end = match x.checked_add(w) {
                Some(v) => v,
                None => return Err(ZError::InvalidData),
            };
            let y_end = match y.checked_add(h) {
                Some(v) => v,
                None => return Err(ZError::InvalidData),
            };
            if x < xmin {
                xmin = x;
            }
            if y < ymin {
                ymin = y;
            }
            if x_end > xmax {
                xmax = x_end;
            }
            if y_end > ymax {
                ymax = y_end;
            }
            rects.push(Rect(x, y, w, h));
            k += 1;
        }
        Ok((rects, (area, xmin, ymin, xmax, ymax)))
    }


    /// Reads `count` objects.
    fn read_objects(&mut self, data: &[u8], count: u32) -> (r: ZResult<Vec<Obj>>)
        requires
            old(self).offset <= data@.len(),
        ensures
            final(self).offset <= data@.len(),
            match objs_from(data@, old(self).offset as int, count as nat, Seq::empty()) {
                Ok((objs, o)) => r matches Ok(v) && v@ == objs && final(self).offset == o,
                Err(e) => r matches Err(x) && x == e,
            },
    {
        let ghost start = self.offset as int;
        let mut objects: Vec<Obj> = Vec::new();
        let mut i: u32 = 0;
        while i < count
            invariant
                i <= count,
                start == old(self).offset as int,
                self.offset <= data@.len(),
                objs_from(data@, start, count as nat, Seq::empty()) == objs_from(
                    data@,
                    self.offset as int,
                    (count - i) as nat,
                    objects@,
                ),
            decreases count - i,
        {
            let a = match self.read_i32(data) {
                Ok(v) => v,
                Err(e) => return Err(e),
            };
            let b = match self.read_i32(data) {
                Ok(v) => v,
                Err(e) => return Err(e),
            };
            let c = match self.read_i32(data) {
                Ok(v) => v,
                Err(e) => return Err(e),
            };
            objects.push(Obj(a, b, c));
            i += 1;
        }
        Ok(objects)
    }

    /// Reads the room with index `id`; a room whose name cannot be read is the
    /// default one.
    fn read_room(&mut self, data: &[u8], id: usize) -> (r: ZResult<Room>)
        requires
            old(self).offset <= data@.len(),
        ensures
            final(self).offset <= data@.len(),
            match room_at(data@, old(self).offset as int, id) {
                Ok((room, o)) => r matches Ok(v) && v@ == room && final(self).offset == o,
                Err(e) => r matches Err(x) && x == e,
            },
    {
        let name = match self.maybe_string(data) {
            Some(n) => n,
            None => {
                let room = Room {
                    id: 0,
                    name: String::new(),
                    layer: 0,
                    area: 0,
                    rects: Vec::new(),
                    objects: Vec::new(),
                    xmin: 0,
                    ymin: 0,
                    xmax: 0,
                    ymax: 0,
                };
                return Ok(room);
            },
        };
        let layer = match self.read_i32(data) {
            Ok(v) => v,
            Err(e) => return Err(e),
        };
        let num_rects = match self.read_u32(data) {
            Ok(v) => v,
            Err(e) => return Err(e),
        };
        let (rects, bounds) = match self.read_rects(data, num_rects) {
            Ok(v) => v,
            Err(e) => return Err(e),
        };
        let obj_num = match self.read_i32(data) {
            Ok(v) => v,
            Err(e) => return Err(e),
        };
        if obj_num < 0 {
            return Err(ZError::InvalidData);
        }
        let objects = match self.read_objects(data, obj_num as u32) {
            Ok(v) => v,
            Err(e) => return Err(e),
        };
        let (area, xmin, ymin, xmax, ymax) = bounds;
        let room = Room { id, name, layer, area, rects, objects, xmin, ymin, xmax, ymax };
        proof {
            assert(room@.rects == rects@);
        }
        Ok(room)
    }

    fn read_rooms(&mut self, data: &[u8], room_number: usize) -> (r: ZResult<Vec<Room>>)
        requires
            old(self).offset <= data@.len(),
        ensures
            final(self).offset <= data@.len(),
            match rooms_from(data@, old(self).offset as int, room_number as nat, 0, Seq::empty()) {
                Ok((rooms, o)) => r matches Ok(v) && v@.map_values(|x: Room| x@) == rooms
                    && final(self).offset == o,
                Err(e) => r matches Err(x) && x == e,
            },
    {
        let ghost start = self.offset as int;
        let mut rooms: Vec<Room> = Vec::new();
        let mut id: usize = 0;
        assert(rooms@.map_values(|x: Room| x@) =~= Seq::empty());
        while id < room_number
            invariant
                id <= room_number,
                start == old(self).offset as int,
                self.offset <= data@.len(),
                rooms_from(data@, start, room_number as nat, 0, Seq::empty()) == rooms_from(
                    data@,
                    self.offset as int,
                    (room_number - id) as nat,
                    id as nat,
                    rooms@.map_values(|x: Room| x@),
                ),
            decreases room_number - id,
        {
            let ghost before = rooms@.map_values(|x: Room| x@);
            let room = match self.read_room(data, id) {
                Ok(v) => v,
                Err(e) => return Err(e),
            };
            let ghost rv = room@;
            rooms.push(room);
            assert(rooms@.map_values(|x: Room| x@) =~= before.push(rv));
            id += 1;
        }
        Ok(rooms)
    }

    /// Reads `count` `u32` values.
    fn read_u32s(&mut self, data: &[u8], count: u32) -> (r: ZResult<Vec<u32>>)
        requires
            old(self).offset <= data@.len(),
        ensures
            final(self).offset <= data@.len(),
            match u32s_from(data@, old(self).offset as int, count as nat, Seq::empty()) {
                Ok((vals, o)) => r matches Ok(v) && v@ == vals && final(self).offset == o,
                Err(e) => r matches Err(x) && x == e,
            },
    {
        let ghost start = self.offset as int;
        let mut vals: Vec<u32> = Vec::new();
        let mut i: u32 = 0;
        while i < count
            invariant
                i <= count,
                start == old(self).offset as int,
                self.offset <= data@.len(),
                u32s_from(data@, start, count as nat, Seq::empty()) == u32s_from(
                    data@,
                    self.offset as int,
                    (count - i) as nat,
                    vals@,
                ),
            decreases count - i,
        {
            let v = match self.read_u32(data) {
                Ok(v) => v,
                Err(e) => return Err(e),
            };
            vals.push(v);
            i += 1;
        }
        Ok(vals)
    }

    fn read_buildings(&mut self, data: &[u8], building_num: u32) -> (r: ZResult<Vec<Building>>)
        requires
            old(self).offset <= data@.len(),
        ensures
            final(self).offset <= data@.len(),
            match buildings_from(
                data@,
                old(self).offset as int,
                building_num as nat,
                0,
                Seq::empty(),
            ) {
                Ok((bs, o)) => r matches Ok(v) && v@.map_values(|x: Building| x@) == bs
                    && final(self).offset == o,
                Err(e) => r matches Err(x) && x == e,
            },
    {
        let ghost start = self.offset as int;
        let mut buildings: Vec<Building> = Vec::new();
        let mut id: u32 = 0;
        assert(buildings@.map_values(|x: Building| x@) =~= Seq::empty());
        while id < building_num
            invariant
                id <= building_num,
                start == old(self).offset as int,
                self.offset <= data@.len(),
                buildings_from(data@, start, building_num as nat, 0, Seq::empty())
                    == buildings_from(
                    data@,
                    self.offset as int,
                    (building_num - id) as nat,
                    id as nat,
                    buildings@.map_values(|x: Building| x@),
                ),
            decreases building_num - id,
        {
            let ghost before = buildings@.map_values(|x: Building| x@);
            let room_num = match self.read_u32(data) {
                Ok(v) => v,
                Err(e) => return Err(e),
            };
            let rooms = match self.read_u32s(data, room_num) {
                Ok(v) => v,
                Err(e) => return Err(e),
            };
            let b = Building { id, rooms };
            let ghost bv = b@;
            buildings.push(b);
            assert(buildings@.map_values(|x: Building| x@) =~= before.push(bv));
            id += 1;
        }
        Ok(buildings)
    }

    /// Reads the 32 chunks of 32 bytes of the zombie population grid.
    fn read_zpop(&mut self, data: &[u8]) -> (r: ZResult<Vec<bytes::Bytes>>)
        requires
            old(self).offset <= data@.len(),
        ensures
            match zpop_at(data@, old(self).offset as int) {
                Ok(z) => r matches Ok(v) && v@.map_values(|b: bytes::Bytes| bytes_contents(b)) == z,
                Err(e) => r matches Err(x) && x == e,
            },
    {
        if data.len() - self.offset < ZPOP_BYTES {
            return Err(ZError::Slice);
        }
        let off = self.offset;
        let mut zpop: Vec<bytes::Bytes> = Vec::new();
        let mut k: usize = 0;
        while k < 32
            invariant
                k <= 32,
                off + 1024 <= data.len(),
                zpop@.len() == k,
                forall|i: int|
                    0 <= i < k ==> bytes_contents(#[trigger] zpop@[i]) == data@.subrange(
                        off + 32 * i,
                        off + 32 * i + 32,
                    ),
            decreases 32 - k,
        {
            let chunk = &data[off + 32 * k..off + 32 * k + 32];
            zpop.push(bytes_copy_from_slice(chunk));
            k += 1;
        }
        proof {
            let z = Seq::new(32, |i: int| data@.subrange(off + 32 * i, off + 32 * i + 32));
            assert(zpop@.map_values(|b: bytes::Bytes| bytes_contents(b)) =~= z);
        }
        Ok(zpop)
    }

    /// The fields from the version to the layer range, in file order.
    fn read_head(&mut self, data: &[u8]) -> (r: ZResult<(u32, Vec<String>, u32, u32, i32, i32)>)
        ensures
            r is Ok ==> final(self).offset <= data@.len(),
            match header_head(data@, old(self).offset as int) {
                Ok((version, tiles, width, height, min_layer, max_layer, o)) => r matches Ok(
                    (v, t, w, h, lo, hi),
                ) && v == version && t@.map_values(|s: String| s@) == tiles && w == width && h
                    == height && lo == min_layer && hi == max_layer && final(self).offset == o,
                Err(e) => r matches Err(x) && x == e,
            },
    {
        if data.len() < 4 {
            return Err(ZError::Slice);
        }
        let version = if data[0] == 0x4c && data[1] == 0x4f && data[2] == 0x54 && data[3] == 0x48 {
            match self.read_u32(data) {
                Ok(v) => v,
                Err(e) => return Err(e),
            }
        } else {
            u32_at(data, 0)
        };
        let num_tiles = match self.read_u32(data) {
            Ok(v) => v,
            Err(e) => return Err(e),
        };
        let tiles = match self.read_tiles(data, num_tiles as usize) {
            Ok(v) => v,
            Err(e) => return Err(e),
        };
        let width = match self.read_u32(data) {
            Ok(v) => v,
            Err(e) => return Err(e),
        };
        let height = match self.read_u32(data) {
            Ok(v) => v,
            Err(e) => return Err(e),
        };
        let min_layer = match self.read_i32(data) {
            Ok(v) => v,
            Err(e) => return Err(e),
        };
        let top = match self.read_i32(data) {
            Ok(v) => v,
            Err(e) => return Err(e),
        };
        if top == i32::MAX {
            return Err(ZError::InvalidData);
        }
        let max_layer = top + 1;
        Ok((version, tiles, width, height, min_layer, max_layer))
    }

    fn read_fields(&mut self, data: &[u8]) -> (r: ZResult<LotHeader>)
        ensures
            match parse_header(data@, old(self).offset as int) {
                Ok(h) => r matches Ok(v) && v@ == h,
                Err(e) => r matches Err(x) && x == e,
            },
    {
        let (version, tiles, width, height, min_layer, max_layer) = match self.read_head(data) {
            Ok(v) => v,
            Err(e) => return Err(e),
        };
        let room_number = match self.read_u32(data) {
            Ok(v) => v,
            Err(e) => return Err(e),
        };
        let rooms = match self.read_rooms(data, room_number as usize) {
            Ok(v) => v,
            Err(e) => return Err(e),
        };
        let building_num = match self.read_u32(data) {
            Ok(v) => v,
            Err(e) => return Err(e),
        };
        let buildings = match self.read_buildings(data, building_num) {
            Ok(v) => v,
            Err(e) => return Err(e),
        };
        let zpop = match self.read_zpop(data) {
            Ok(v) => v,
            Err(e) => return Err(e),
        };
        let header = LotHeader {
            version,
            width,
            height,
            max_layer,
            min_layer,
            tiles,
            rooms,
            buildings,
            zpop,
        };
        Ok(header)
    }

    /// Decodes the bytes of a `.lotheader` file, reading from the reader's
    /// position (4 for a new reader). The result is exactly `parse_header` of
    /// the bytes; after a success the reader is back at 4, ready for the next
    /// file, and after a failure it stays where reading stopped.
    pub fn parse(&mut self, file_bytes: &[u8]) -> (r: ZResult<LotHeader>)
        ensures
            r is Ok ==> final(self).offset() == 4,
            match parse_header(file_bytes@, old(self).offset()) {
                Ok(h) => r matches Ok(v) && v@ == h,
                Err(e) => r matches Err(x) && x == e,
            },
    {
        let r = self.read_fields(file_bytes);
        if r.is_ok() {
            self.offset = 4;
        }
        r
    }

    fn maybe_string(&mut self, data: &[u8]) -> (r: Option<String>)
        requires
            old(self).offset <= data@.len(),
        ensures
            final(self).offset <= data@.len(),
            match line_at(data@, old(self).offset as int) {
                Some((s, o)) => r matches Some(t) && t@ == s && final(self).offset == o,
                None => r is None && final(self).offset == old(self).offset,
            },
    {
        let rest = &data[self.offset..data.len()];
        let idx = match find_byte(NEWLINE, rest) {
            Some(i) => i,
            None => return None,
        };
        let raw = &rest[0..idx];
        let tile = match decode_str(raw) {
            Some(s) => s,
            None => return None,
        };
        let trimmed = str_trim(tile);
        self.advance_offset(idx + 1);
        Some(trimmed.to_owned())
    }
}


/// Whether room `r` was read from a record at `off`: the record starts with
/// a name line, whose text is the room's name; the `i32` right after that
/// line is the room's layer; then come the number of rectangles and their
/// 16-byte records `(x, y, w, h)`, then the number of objects and their
/// 12-byte records; the room's area and bounds are those of its rectangles.
pub open spec fn room_read_at(d: Seq<u8>, off: int, r: RoomView) -> bool {
    match line_at(d, off) {
        Some((name, o1)) => {
            let nr = r.rects.len() as int;
            let o_obj = o1 + 8 + 16 * nr;
            &&& r.name == name
            &&& fits4(d, o1)
            &&& r.layer == le_i32_at(d, o1)
            &&& fits4(d, o1 + 4)
            &&& nr == le_u32_at(d, o1 + 4)
            &&& forall|i: int| 0 <= i < nr ==> #[trigger] r.rects[i] == rect_at(d, o1 + 8 + 16 * i)
            &&& fits4(d, o_obj)
            &&& r.objects.len() == le_i32_at(d, o_obj)
            &&& forall|j: int|
                0 <= j < r.objects.len() ==> #[trigger] r.objects[j] == Obj(
                    le_i32_at(d, o_obj + 4 + 12 * j),
                    le_i32_at(d, o_obj + 8 + 12 * j),
                    le_i32_at(d, o_obj + 12 + 12 * j),
                )
            &&& (r.area as int, r.xmin as int, r.ymin as int, r.xmax as int, r.ymax as int) == rects_bounds(r.rects)
        },
        None => false,
    }
}

/// The total area of the rectangles and the box `(xmin, ymin, xmax, ymax)`
/// around them and the origin.
pub open spec fn rects_bounds(rs: Seq<Rect>) -> (int, int, int, int, int)
    decreases rs.len(),
{
    if rs.len() == 0 {
        (0, 0, 0, 0, 0)
    } else {
        let (a, x0, y0, x1, y1) = rects_bounds(rs.drop_last());
        let r = rs.last();
        (
            a + r.2 * r.3,
            if r.0 < x0 { r.0 as int } else { x0 },
            if r.1 < y0 { r.1 as int } else { y0 },
            if r.0 + r.2 > x1 { r.0 + r.2 } else { x1 },
            if r.1 + r.3 > y1 { r.1 + r.3 } else { y1 },
        )
    }
}

/// A run of rectangle records: each rectangle is the four `i32`s of its
/// 16-byte record, and the bounds grow to cover them.
proof fn lemma_rects_from_records(d: Seq<u8>, off: int, k: nat, b: Bounds, done: Seq<Rect>)
    requires
        rects_from(d, off, k, b, done) is Ok,
        (b.0 as int, b.1 as int, b.2 as int, b.3 as int, b.4 as int) == rects_bounds(done),
    ensures
        ({
            let (rs, b2, o) = rects_from(d, off, k, b, done)->Ok_0;
            &&& rs.len() == done.len() + k
            &&& o == off + 16 * k
            &&& forall|i: int| 0 <= i < done.len() ==> rs[i] == done[i]
            &&& forall|i: int| 0 <= i < k ==> #[trigger] rs[done.len() + i] == rect_at(d, off + 16 * i)
            &&& (b2.0 as int, b2.1 as int, b2.2 as int, b2.3 as int, b2.4 as int) == rects_bounds(rs)
        }),
    decreases k,
{
    if k > 0 {
        let r = rect_at(d, off);
        let b2 = grow_bounds(b, r)->0;
        let next = done.push(r);
        assert(next.drop_last() == done);
        lemma_rects_from_records(d, off + 16, (k - 1) as nat, b2, next);
        let rs = rects_from(d, off, k, b, done)->Ok_0.0;
        assert forall|i: int| 0 <= i < k implies #[trigger] rs[done.len() + i] == rect_at(d, off + 16 * i) by {
            if i > 0 {
                assert(rs[next.len() + (i - 1)] == rect_at(d, off + 16 + 16 * (i - 1)));
            } else {
                assert(rs[done.len() as int] == next[done.len() as int]);
            }
        }
    }
}

/// A run of object records: each object is the three `i32`s of its 12-byte
/// record.
proof fn lemma_objs_from_records(d: Seq<u8>, off: int, k: nat, done: Seq<Obj>)
    requires
        objs_from(d, off, k, done) is Ok,
    ensures
        ({
            let (os, o) = objs_from(d, off, k, done)->Ok_0;
            &&& os.len() == done.len() + k
            &&& forall|i: int| 0 <= i < done.len() ==> os[i] == done[i]
            &&& forall|i: int|
                0 <= i < k ==> #[trigger] os[done.len() + i] == Obj(
                    le_i32_at(d, off + 12 * i),
                    le_i32_at(d, off + 4 + 12 * i),
                    le_i32_at(d, off + 8 + 12 * i),
                )
        }),
    decreases k,
{
    if k > 0 {
        let ob = Obj(le_i32_at(d, off), le_i32_at(d, off + 4), le_i32_at(d, off + 8));
        let next = done.push(ob);
        lemma_objs_from_records(d, off + 12, (k - 1) as nat, next);
        let os = objs_from(d, off, k, done)->Ok_0.0;
        assert forall|i: int| 0 <= i < k implies #[trigger] os[done.len() + i] == Obj(
            le_i32_at(d, off + 12 * i),
            le_i32_at(d, off + 4 + 12 * i),
            le_i32_at(d, off + 8 + 12 * i),
        ) by {
            if i > 0 {
                assert(os[next.len() + (i - 1)] == Obj(
                    le_i32_at(d, off + 12 + 12 * (i - 1)),
                    le_i32_at(d, off + 12 + 4 + 12 * (i - 1)),
                    le_i32_at(d, off + 12 + 8 + 12 * (i - 1)),
                ));
            } else {
                assert(os[done.len() as int] == next[done.len() as int]);
            }
        }
    }
}

/// Whether room `r` is one the file holds: read from a record somewhere in
/// the data, or the default room that stands for a record with no name.
pub open spec fn room_from_file(d: Seq<u8>, r: RoomView) -> bool {
    r == default_room() || exists|off: int| room_read_at(d, off, r)
}

/// A room read at `off` whose name line is there has that line's text as
/// its name, the `i32` right after the line as its layer, the rectangle and
/// object records that follow as its rectangles and objects, their total
/// area and bounding box as its area and bounds, and the index it was read
/// with as its id.
pub proof fn lemma_room_fields(d: Seq<u8>, off: int, id: usize)
    requires
        room_at(d, off, id) is Ok,
        line_at(d, off) is Some,
    ensures
        room_read_at(d, off, room_at(d, off, id)->Ok_0.0),
        room_at(d, off, id)->Ok_0.0.id == id,
{
    let (name, o1) = line_at(d, off)->0;
    let (nr, o3) = read_u32_spec(d, o1 + 4)->Ok_0;
    assert(rects_bounds(Seq::<Rect>::empty()) == (0int, 0int, 0int, 0int, 0int));
    lemma_rects_from_records(d, o3, nr as nat, (0, 0, 0, 0, 0), Seq::empty());
    let (rects, b, o4) = rects_from(d, o3, nr as nat, (0, 0, 0, 0, 0), Seq::empty())->Ok_0;
    let (no, o5) = read_i32_spec(d, o4)->Ok_0;
    lemma_objs_from_records(d, o5, no as nat, Seq::empty());
    let r = room_at(d, off, id)->Ok_0.0;
    assert forall|i: int| 0 <= i < nr implies #[trigger] r.rects[i] == rect_at(d, o1 + 8 + 16 * i) by {
        assert(rects[0 + i] == rect_at(d, o3 + 16 * i));
    }
    assert forall|j: int| 0 <= j < r.objects.len() implies #[trigger] r.objects[j] == Obj(
        le_i32_at(d, o5 + 12 * j),
        le_i32_at(d, o5 + 4 + 12 * j),
        le_i32_at(d, o5 + 8 + 12 * j),
    ) by {
        assert(r.objects[0 + j] == Obj(le_i32_at(d, o5 + 12 * j), le_i32_at(d, o5 + 4 + 12 * j), le_i32_at(d, o5 + 8 + 12 * j)));
    }
}

/// Every room of a successful run of room records comes from the file.
proof fn lemma_rooms_from_file(d: Seq<u8>, off: int, n: nat, id: nat, done: Seq<RoomView>)
    requires
        rooms_from(d, off, n, id, done) is Ok,
        forall|k: int| 0 <= k < done.len() ==> room_from_file(d, #[trigger] done[k]),
    ensures
        forall|k: int|
            0 <= k < rooms_from(d, off, n, id, done)->Ok_0.0.len() ==> room_from_file(
                d,
                #[trigger] rooms_from(d, off, n, id, done)->Ok_0.0[k],
            ),
    decreases n,
{
    if n > 0 {
        let (r, o) = room_at(d, off, id as usize)->Ok_0;
        if line_at(d, off) is Some {
            lemma_room_fields(d, off, id as usize);
            assert(room_read_at(d, off, r));
        }
        let next = done.push(r);
        assert forall|k: int| 0 <= k < next.len() implies room_from_file(d, #[trigger] next[k]) by {
            if k < done.len() {
                assert(next[k] == done[k]);
            }
        }
        lemma_rooms_from_file(d, o, (n - 1) as nat, id + 1, next);
    }
}

/// Every room of a parsed header comes from the file: its name is the text
/// of a name line of the file and its layer the `i32` stored right after
/// that line (or it is the default room, for a record with no name).
pub proof fn lemma_parsed_rooms_from_file(d: Seq<u8>, start: int)
    requires
        parse_header(d, start) is Ok,
    ensures
        forall|k: int|
            0 <= k < parse_header(d, start)->Ok_0.rooms.len() ==> room_from_file(d, #[trigger] parse_header(d, start)->Ok_0.rooms[k]),
{
    let (version, tiles, width, height, min_layer, max_layer, o1) = header_head(d, start)->Ok_0;
    let (nr, o2) = read_u32_spec(d, o1)->Ok_0;
    lemma_rooms_from_file(d, o2, nr as nat, 0, Seq::empty());
}

} // verus!
