//! Reader for `.lotpack` files: for every square of a map cell and every
//! stored z-level, the tile ids stacked on it.
use vstd::prelude::*;
use crate::header::{read_i32_spec, read_u32_spec};
use crate::le::{fits4, i32_at, le_u32_at, u32_at};
use crate::{LotHeader, LotHeaderView, ZError, ZResult};

verus! {

/// Squares along the edge of a block.
pub const BLOCK_SIZE: usize = 8;

/// Blocks along the edge of a cell.
pub const CELL_SIZE_IN_BLOCKS: usize = 32;

/// Blocks in a cell.
pub const BLOCKS_PER_CELL: usize = 1024;

/// Most tile ids a square can hold.
pub const SQUARE_CAPACITY: usize = 16;

/// Position of the first square of block `b` when each block holds
/// `layers` z-levels of 8 × 8 squares.
pub open spec fn block_base(layers: nat, b: int) -> int {
    b * (layers * 64)
}

/// Position of square `(x, y)` of z-level `z` in block `b`.
pub open spec fn square_index(layers: nat, b: int, z: int, x: int, y: int) -> int {
    block_base(layers, b) + z * 64 + x * 8 + y
}

/// The squares of all blocks of a cell: `ndarray::Array4` of
/// `heapless::Vec<i32, 16>` indexed `[block, z, x, y]`.
#[verifier::external_body]
pub struct Blocks {
    grid: ndarray::Array4<heapless::Vec<i32, 16>>,
}

/// The number of z-levels the grid was made with.
pub uninterp spec fn blocks_layers(b: Blocks) -> nat;

/// The tile ids of every square, in index order `[block, z, x, y]`.
pub uninterp spec fn blocks_squares(b: Blocks) -> Seq<Seq<i32>>;

/// Calls `ndarray::Array::from_elem` with shape `(1024, layers, 8, 8)` and an
/// empty `heapless::Vec`: every square starts empty. `from_elem` panics when
/// the number of elements overflows `isize`, and the vector it fills panics
/// when their bytes do (a `heapless::Vec<i32, 16>` is a length and sixteen
/// `i32`, at most 72 bytes); `requires` rules both out.
#[verifier::external_body]
fn blocks_new(layers: usize) -> (r: Blocks)
    requires
        1024 * (layers * 64) * 72 <= isize::MAX,
    ensures
        blocks_layers(r) == layers,
        blocks_squares(r) == Seq::new(1024 * (layers as nat * 64), |i: int| Seq::<i32>::empty()),
{
    Blocks { grid: ndarray::Array::from_elem((1024, layers, 8, 8), heapless::Vec::new()) }
}

/// Indexes the grid at `[b, z, x, y]` (ndarray panics outside its shape) and
/// calls `heapless::Vec::push`, which appends when the vector holds fewer
/// than 16 items.
#[verifier::external_body]
fn blocks_push(blocks: &mut Blocks, b: usize, z: usize, x: usize, y: usize, v: i32)
    requires
        b < 1024,
        z < blocks_layers(*old(blocks)),
        x < 8,
        y < 8,
        blocks_squares(*old(blocks))[square_index(blocks_layers(*old(blocks)), b as int, z as int, x as int, y as int)].len() < 16,
    ensures
        blocks_layers(*final(blocks)) == blocks_layers(*old(blocks)),
        blocks_squares(*final(blocks)) == blocks_squares(*old(blocks)).update(
            square_index(blocks_layers(*old(blocks)), b as int, z as int, x as int, y as int),
            blocks_squares(*old(blocks))[square_index(blocks_layers(*old(blocks)), b as int, z as int, x as int, y as int)].push(v),
        ),
{
    let _ = blocks.grid[[b, z, x, y]].push(v);
}

/// Calls `ndarray::ArrayBase::len_of` on the layer axis: the number of z-levels.
#[verifier::external_body]
fn blocks_layers_exec(blocks: &Blocks) -> (r: usize)
    ensures
        r == blocks_layers(*blocks),
{
    blocks.grid.len_of(ndarray::Axis(1))
}

/// Indexes the grid at `[b, z, x, y]` and calls `heapless::Vec::as_slice`:
/// the tile ids of that square, at most the vector's capacity of 16.
#[verifier::external_body]
fn blocks_get(blocks: &Blocks, b: usize, z: usize, x: usize, y: usize) -> (r: &[i32])
    requires
        b < 1024,
        z < blocks_layers(*blocks),
        x < 8,
        y < 8,
    ensures
        r@ == blocks_squares(*blocks)[square_index(blocks_layers(*blocks), b as int, z as int, x as int, y as int)],
        r@.len() <= 16,
{
    blocks.grid[[b, z, x, y]].as_slice()
}

/// The tile ids stored for one square: `k` more values read from `off`.
/// A square outside the 1024 blocks of the grid cannot hold any, and a square
/// holds at most 16.
pub open spec fn values_from(d: Seq<u8>, off: int, k: nat, in_grid: bool, done: Seq<i32>) -> Result<
    (Seq<i32>, int),
    ZError,
>
    decreases k,
{
    if k == 0 {
        Ok((done, off))
    } else if !in_grid {
        Err(ZError::InvalidData)
    } else {
        match read_i32_spec(d, off) {
            Err(e) => Err(e),
            Ok((v, o)) => if done.len() >= 16 {
                Err(ZError::InvalidData)
            } else {
                values_from(d, o, (k - 1) as nat, in_grid, done.push(v))
            },
        }
    }
}

/// One square: its tile ids, the offset after it and how many of the
/// following squares are to be skipped. A count of `-1` is followed by a run
/// length: that many squares, this one included, are empty. A count `c > 1`
/// is followed by a room id and `c - 1` tile ids.
pub open spec fn square_at(d: Seq<u8>, off: int, skip: int, in_grid: bool) -> Result<
    (Seq<i32>, int, int),
    ZError,
> {
    if skip > 0 {
        Ok((Seq::empty(), off, skip - 1))
    } else {
        match read_i32_spec(d, off) {
            Err(e) => Err(e),
            Ok((count, o1)) => if count == -1 {
                match read_i32_spec(d, o1) {
                    Err(e) => Err(e),
                    Ok((s, o2)) => {
                        let run = (s as usize) as int;
                        if run > 0 {
                            Ok((Seq::empty(), o2, run - 1))
                        } else {
                            Ok((Seq::empty(), o2, 0))
                        }
                    },
                }
            } else if count <= 1 {
                Ok((Seq::empty(), o1, 0))
            } else {
                match read_i32_spec(d, o1) {
                    Err(e) => Err(e),
                    Ok((_room, o2)) => match values_from(
                        d,
                        o2,
                        (count - 1) as nat,
                        in_grid,
                        Seq::empty(),
                    ) {
                        Err(e) => Err(e),
                        Ok((vals, o3)) => Ok((vals, o3, 0)),
                    },
                }
            },
        }
    }
}

/// `n` more squares decoded from `off` after those in `done`.
pub open spec fn squares_from(
    d: Seq<u8>,
    off: int,
    n: nat,
    skip: int,
    in_grid: bool,
    done: Seq<Seq<i32>>,
) -> Result<Seq<Seq<i32>>, ZError>
    decreases n,
{
    if n == 0 {
        Ok(done)
    } else {
        match square_at(d, off, skip, in_grid) {
            Err(e) => Err(e),
            Ok((sq, o, s)) => squares_from(d, o, (n - 1) as nat, s, in_grid, done.push(sq)),
        }
    }
}

/// `grid` with the squares of a block written from position `base` on.
pub open spec fn place_block(grid: Seq<Seq<i32>>, base: int, sq: Seq<Seq<i32>>) -> Seq<Seq<i32>> {
    Seq::new(grid.len(), |j: int| if base <= j < base + sq.len() { sq[j - base] } else { grid[j] })
}

/// Blocks `i..n` decoded into `grid`. The offset of block `i` is stored at
/// byte `12 + 8 i`; that position is computed in `u32`.
pub open spec fn blocks_from(d: Seq<u8>, i: nat, n: nat, layers: nat, grid: Seq<Seq<i32>>) -> Result<
    Seq<Seq<i32>>,
    ZError,
>
    decreases n - i,
{
    if i >= n {
        Ok(grid)
    } else if 12 + 8 * i > u32::MAX {
        Err(ZError::InvalidData)
    } else {
        match read_u32_spec(d, (12 + 8 * i) as int) {
            Err(e) => Err(e),
            Ok((o, _)) => match squares_from(d, o as int, layers * 64, 0, i < 1024, Seq::empty()) {
                Err(e) => Err(e),
                Ok(sq) => blocks_from(
                    d,
                    i + 1,
                    n,
                    layers,
                    if i < 1024 {
                        place_block(grid, block_base(layers, i as int), sq)
                    } else {
                        grid
                    },
                ),
            },
        }
    }
}

/// Bytes a square takes at most: a length and room for 16 tile ids.
pub const SQUARE_BYTES: usize = 72;

/// Most z-levels a cell can store: the bytes of the grid's squares, 72 for
/// each of the `1024 × 64` squares of a level, must fit `isize`.
pub open spec fn max_layers() -> int {
    isize::MAX as int / 4718592int
}

/// The number of z-levels `[min_layer, max_layer)`, or why it cannot be stored.
pub open spec fn layer_count(min_layer: i32, max_layer: i32) -> Result<nat, ZError> {
    let n = max_layer - min_layer;
    if n < 0 || n > max_layers() {
        Err(ZError::InvalidData)
    } else {
        Ok(n as nat)
    }
}

/// The squares of a `.lotpack` file whose header has the given layer range,
/// read with a cursor that starts at `start`: the file starts with `LOTP`,
/// then (at the cursor) a version and a block count, then the block table.
/// Whether the data starts with the `LOTP` magic that every `.lotpack` file
/// carries.
pub open spec fn has_lotp_magic(d: Seq<u8>) -> bool {
    d.len() >= 4 && d[0] == 0x4c && d[1] == 0x4f && d[2] == 0x54 && d[3] == 0x50
}

/// Whether `data` starts with the `LOTP` magic, which `parse` requires.
pub fn starts_with_lotp(data: &[u8]) -> (r: bool)
    ensures
        r == has_lotp_magic(data@),
{
    data.len() >= 4 && data[0] == 0x4c && data[1] == 0x4f && data[2] == 0x54 && data[3] == 0x50
}

pub open spec fn parse_lotpack(d: Seq<u8>, start: int, min_layer: i32, max_layer: i32) -> Result<
    (nat, Seq<Seq<i32>>),
    ZError,
> {
    if d.len() < 4 {
        Err(ZError::Slice)
    } else if !(d[0] == 0x4c && d[1] == 0x4f && d[2] == 0x54 && d[3] == 0x50) {
        Err(ZError::InvalidData)
    } else {
        match read_u32_spec(d, start) {
            Err(e) => Err(e),
            Ok((_version, o1)) => match read_u32_spec(d, o1) {
                Err(e) => Err(e),
                Ok((block_num, _)) => match layer_count(min_layer, max_layer) {
                    Err(e) => Err(e),
                    Ok(layers) => match blocks_from(
                        d,
                        0,
                        block_num as nat,
                        layers,
                        Seq::new(1024 * (layers * 64), |i: int| Seq::<i32>::empty()),
                    ) {
                        Err(e) => Err(e),
                        Ok(grid) => Ok((layers, grid)),
                    },
                },
            },
        }
    }
}


/// Placing `m` more empty squares over an empty region changes nothing.
pub proof fn lemma_place_empty(s0: Seq<Seq<i32>>, base: int, done: Seq<Seq<i32>>, m: nat)
    requires
        0 <= base,
        base + done.len() + m <= s0.len(),
        forall|j: int| base + done.len() <= j < base + done.len() + m ==> s0[j] == Seq::<i32>::empty(),
    ensures
        place_block(s0, base, done + Seq::new(m, |i: int| Seq::<i32>::empty())) == place_block(s0, base, done),
{
    assert(place_block(s0, base, done + Seq::new(m, |i: int| Seq::<i32>::empty())) =~= place_block(s0, base, done));
}

/// Placing one more square writes it at the next position.
pub proof fn lemma_place_push(s0: Seq<Seq<i32>>, base: int, done: Seq<Seq<i32>>, v: Seq<i32>)
    requires
        0 <= base,
        base + done.len() < s0.len(),
    ensures
        place_block(s0, base, done.push(v)) == place_block(s0, base, done).update(base + done.len(), v),
{
    assert(place_block(s0, base, done.push(v)) =~= place_block(s0, base, done).update(base + done.len(), v));
}

/// Progress through a block: the squares in `done` are decoded and written
/// into `grid`, and decoding goes on from `off` with `skip` squares to skip.
pub open spec fn decoding(
    d: Seq<u8>,
    off0: int,
    layers: nat,
    g: bool,
    base: int,
    s0: Seq<Seq<i32>>,
    off: int,
    skip: int,
    done: Seq<Seq<i32>>,
    grid: Seq<Seq<i32>>,
) -> bool {
    &&& done.len() <= layers * 64
    &&& squares_from(d, off0, layers * 64, 0, g, Seq::empty()) == squares_from(
        d,
        off,
        (layers * 64 - done.len()) as nat,
        skip,
        g,
        done,
    )
    &&& grid == (if g { place_block(s0, base, done) } else { s0 })
}

/// The squares of a map cell, with the header they were read against.
#[verifier::ext_equal]
pub struct LotPackView {
    pub header: LotHeaderView,
    pub layers: nat,
    pub squares: Seq<Seq<i32>>,
}

/// A decoded map cell: its header and the tile ids on every square.
pub struct LotPack {
    pub header: LotHeader,
    pub blocks: Blocks,
}

impl View for LotPack {
    type V = LotPackView;

    open spec fn view(&self) -> LotPackView {
        LotPackView {
            header: self.header@,
            layers: blocks_layers(self.blocks),
            squares: blocks_squares(self.blocks),
        }
    }
}

/// The z-level index of `layer` in a cell whose lowest stored layer is
/// `min_layer`: layers `[min_layer, max_layer)` are stored at `0, 1, ...`.
pub open spec fn layer_index(layer: i32, min_layer: i32) -> int {
    layer - min_layer
}

/// The position of square `(bx, by)` of the cell, at z-level index `z`.
pub open spec fn cell_square_index(layers: nat, bx: int, by: int, z: int) -> int {
    square_index(layers, (bx / 8) * 32 + by / 8, z, bx % 8, by % 8)
}

impl LotPack {
    /// `[min_layer, max_layer)`: the z-levels this cell stores.
    pub fn layer_range(&self) -> (r: (i32, i32))
        ensures
            r == (self.header.min_layer, self.header.max_layer),
    {
        (self.header.min_layer, self.header.max_layer)
    }

    /// Whether `layer` is a z-level this cell stores.
    pub fn has_layer(&self, layer: i32) -> (r: bool)
        ensures
            r == (self.header.min_layer <= layer < self.header.max_layer),
    {
        layer >= self.header.min_layer && layer < self.header.max_layer
    }

    /// The tile ids stacked on square `(bx, by)` at `layer`: a square holds at
    /// most 16.
    pub fn get_block(&self, bx: usize, by: usize, layer: i32) -> (r: &[i32])
        requires
            bx < 256,
            by < 256,
            0 <= layer_index(layer, self.header.min_layer) < blocks_layers(self.blocks),
        ensures
            r@ == self@.squares[cell_square_index(
                self@.layers,
                bx as int,
                by as int,
                layer_index(layer, self.header.min_layer),
            )],
            r@.len() <= 16,
    {
        let idx = bx / BLOCK_SIZE;
        let idx_mod = bx % BLOCK_SIZE;
        let yidx = by / BLOCK_SIZE;
        let yidx_mod = by % BLOCK_SIZE;
        let b = idx * CELL_SIZE_IN_BLOCKS + yidx;
        let z = (layer as i64 - self.header.min_layer as i64) as usize;
        blocks_get(&self.blocks, b, z, idx_mod, yidx_mod)
    }
}

impl LotPack {
    /// The tile ids stacked on square `(bx, by)` at `layer`, or `None` when
    /// the square is outside the cell or the layer is not stored.
    pub fn get_block_checked(&self, bx: usize, by: usize, layer: i32) -> (r: Option<&[i32]>)
        ensures
            match r {
                Some(v) => {
                    &&& bx < 256 && by < 256
                    &&& 0 <= layer_index(layer, self.header.min_layer) < blocks_layers(self.blocks)
                    &&& v@ == self@.squares[cell_square_index(
                        self@.layers,
                        bx as int,
                        by as int,
                        layer_index(layer, self.header.min_layer),
                    )]
                    &&& v@.len() <= 16
                },
                None => !(bx < 256 && by < 256 && 0 <= layer_index(
                    layer,
                    self.header.min_layer,
                ) < blocks_layers(self.blocks)),
            },
    {
        if bx >= 256 || by >= 256 {
            return None;
        }
        let z = layer as i64 - self.header.min_layer as i64;
        if z < 0 || z as u64 >= blocks_layers_exec(&self.blocks) as u64 {
            return None;
        }
        Some(self.get_block(bx, by, layer))
    }
}

/// A cursor over the bytes of a `.lotpack` file.
#[derive(Debug, Copy, Clone)]
pub struct LotPackReader {
    offset: usize,
}

impl LotPackReader {
    pub closed spec fn offset(&self) -> int {
        self.offset as int
    }

    pub fn new() -> (r: Self)
        ensures
            r.offset() == 4,
    {
        Self { offset: 4 }
    }

    fn advance_offset(&mut self, offset: usize)
        requires
            old(self).offset + offset <= usize::MAX,
        ensures
            final(self).offset == old(self).offset + offset,
    {
        self.offset += offset;
    }

    fn read_u32(&mut self, data: &[u8]) -> (r: ZResult<u32>)
        ensures
            match read_u32_spec(data@, old(self).offset as int) {
                Ok((v, o)) => r == Ok::<u32, ZError>(v) && final(self).offset == o,
                Err(e) => r == Err::<u32, ZError>(e) && final(self).offset == old(self).offset,
            },
    {
        if self.offset <= data.len() && data.len() - self.offset >= 4 {
            let v = u32_at(data, self.offset);
            self.advance_offset(4);
            Ok(v)
        } else {
            Err(ZError::Slice)
        }
    }

    fn read_i32(&mut self, data: &[u8]) -> (r: ZResult<i32>)
        ensures
            match read_i32_spec(data@, old(self).offset as int) {
                Ok((v, o)) => r == Ok::<i32, ZError>(v) && final(self).offset == o,
                Err(e) => r == Err::<i32, ZError>(e) && final(self).offset == old(self).offset,
            },
    {
        if self.offset <= data.len() && data.len() - self.offset >= 4 {
            let v = i32_at(data, self.offset);
            self.advance_offset(4);
            Ok(v)
        } else {
            Err(ZError::Slice)
        }
    }



    fn decode(&mut self, file_bytes: &[u8], lot_header: LotHeader) -> (r: ZResult<LotPack>)
        ensures
            match parse_lotpack(
                file_bytes@,
                old(self).offset as int,
                lot_header.min_layer,
                lot_header.max_layer,
            ) {
                Ok((layers, squares)) => r matches Ok(p) && p.header == lot_header && blocks_layers(
                    p.blocks,
                ) == layers && blocks_squares(p.blocks) == squares,
                Err(e) => r matches Err(x) && x == e,
            },
    {
        if file_bytes.len() < 4 {
            return Err(ZError::Slice);
        }
        if !(file_bytes[0] == 0x4c && file_bytes[1] == 0x4f && file_bytes[2] == 0x54 && file_bytes[3]
            == 0x50) {
            return Err(ZError::InvalidData);
        }
        let _version = match self.read_u32(file_bytes) {
            Ok(v) => v,
            Err(e) => return Err(e),
        };
        let block_num = match self.read_u32(file_bytes) {
            Ok(v) => v,
            Err(e) => return Err(e),
        };
        let diff = lot_header.max_layer as i64 - lot_header.min_layer as i64;
        if diff < 0 || diff > (isize::MAX / (65536 * SQUARE_BYTES as isize)) as i64 {
            return Err(ZError::InvalidData);
        }
        let layers = diff as usize;
        let mut blocks = blocks_new(layers);
        let ghost l: nat = layers as nat;
        let ghost total = 1024 * (l * 64);
        let ghost init = blocks_squares(blocks);
        let ghost whole = parse_lotpack(
            file_bytes@,
            old(self).offset as int,
            lot_header.min_layer,
            lot_header.max_layer,
        );
        assert(whole == match blocks_from(file_bytes@, 0, block_num as nat, l, init) {
            Err(e) => Err(e),
            Ok(grid) => Ok((l, grid)),
        });
        let mut i: u32 = 0;
        while i < block_num
            invariant
                i <= block_num,
                whole == parse_lotpack(
                    file_bytes@,
                    old(self).offset as int,
                    lot_header.min_layer,
                    lot_header.max_layer,
                ),
                whole == match blocks_from(file_bytes@, 0, block_num as nat, l, init) {
                    Err(e) => Err(e),
                    Ok(grid) => Ok((l, grid)),
                },
                blocks_layers(blocks) == l,
                l == layers,
                1024 * (l * 64) <= isize::MAX,
                total == 1024 * (l * 64),
                blocks_squares(blocks).len() == total,
                blocks_from(file_bytes@, 0, block_num as nat, l, init) == blocks_from(
                    file_bytes@,
                    i as nat,
                    block_num as nat,
                    l,
                    blocks_squares(blocks),
                ),
                i < 1024 ==> forall|j: int|
                    block_base(l, i as int) <= j < total ==> blocks_squares(blocks)[j] == Seq::<
                        i32,
                    >::empty(),
            decreases block_num - i,
        {
            if i > (u32::MAX - 12) / 8 {
                return Err(ZError::InvalidData);
            }
            self.offset = (12 + i * 8) as usize;
            let o = match self.read_u32(file_bytes) {
                Ok(v) => v,
                Err(e) => return Err(e),
            };
            self.offset = o as usize;
            let ghost before = blocks_squares(blocks);
            proof {
                if i < 1024 {
                    assert(block_base(l, i as int) + l * 64 <= total) by (nonlinear_arith)
                        requires
                            i < 1024,
                            total == 1024 * (l * 64),
                    ;
                    assert(0 <= block_base(l, i as int)) by (nonlinear_arith)
                        requires
                            i >= 0,
                    ;
                }
            }
            match self.read_block(file_bytes, &mut blocks, i as usize) {
                Ok(()) => {},
                Err(e) => return Err(e),
            }
            proof {
                lemma_squares_len(file_bytes@, o as int, l * 64, 0, i < 1024, Seq::empty());
                if i + 1 < 1024 {
                    assert(block_base(l, i as int) + l * 64 == block_base(l, i + 1)) by (nonlinear_arith);
                    assert forall|j: int| block_base(l, i + 1) <= j < total implies blocks_squares(blocks)[j] == Seq::<i32>::empty() by {
                        assert(blocks_squares(blocks)[j] == before[j]);
                    }
                    assert(0 <= block_base(l, i as int)) by (nonlinear_arith)
                        requires
                            i >= 0,
                    ;
                }
            }
            i += 1;
        }
        Ok(LotPack { header: lot_header, blocks })
    }

    /// Decodes the bytes of a `.lotpack` file against its header. The result
    /// is exactly `parse_lotpack` of the bytes, read from the cursor's
    /// position; after a success the cursor is at 0, after a failure it stays
    /// where reading stopped.
    pub fn parse(&mut self, file_bytes: &[u8], lot_header: LotHeader) -> (r: ZResult<LotPack>)
        requires
            has_lotp_magic(file_bytes@),
        ensures
            r is Ok ==> final(self).offset() == 0,
            match parse_lotpack(
                file_bytes@,
                old(self).offset(),
                lot_header.min_layer,
                lot_header.max_layer,
            ) {
                Ok((layers, squares)) => r matches Ok(p) && p@ == (LotPackView {
                    header: lot_header@,
                    layers,
                    squares,
                }),
                Err(e) => r matches Err(x) && x == e,
            },
    {
        let r = self.decode(file_bytes, lot_header);
        if r.is_ok() {
            self.offset = 0;
        }
        r
    }

    /// Decodes block `bi` from the cursor and writes its squares into `blocks`.
    fn read_block(&mut self, data: &[u8], blocks: &mut Blocks, bi: usize) -> (r: ZResult<()>)
        requires
            1024 * (blocks_layers(*old(blocks)) * 64) <= isize::MAX,
            blocks_squares(*old(blocks)).len() == 1024 * (blocks_layers(*old(blocks)) * 64),
            bi < 1024 ==> forall|j: int|
                block_base(blocks_layers(*old(blocks)), bi as int) <= j < block_base(
                    blocks_layers(*old(blocks)),
                    bi as int,
                ) + blocks_layers(*old(blocks)) * 64 ==> blocks_squares(*old(blocks))[j]
                    == Seq::<i32>::empty(),
        ensures
            blocks_layers(*final(blocks)) == blocks_layers(*old(blocks)),
            match squares_from(
                data@,
                old(self).offset as int,
                blocks_layers(*old(blocks)) * 64,
                0,
                bi < 1024,
                Seq::empty(),
            ) {
                Ok(sq) => r is Ok && blocks_squares(*final(blocks)) == (if bi < 1024 {
                    place_block(
                        blocks_squares(*old(blocks)),
                        block_base(blocks_layers(*old(blocks)), bi as int),
                        sq,
                    )
                } else {
                    blocks_squares(*old(blocks))
                }),
                Err(e) => r == Err::<(), ZError>(e),
            },
    {
        let ghost layers_n: nat = blocks_layers(*blocks);
        let layers = blocks_layers_exec(blocks);
        let ghost g = bi < 1024;
        let ghost base = block_base(layers_n, bi as int);
        let ghost s0 = blocks_squares(*blocks);
        let ghost off0 = self.offset as int;
        let ghost mut done: Seq<Seq<i32>> = Seq::empty();
        proof {
            if g {
                assert(bi * (layers_n * 64) + layers_n * 64 <= 1024 * (layers_n * 64)) by (nonlinear_arith)
                    requires
                        bi < 1024,
                ;
                assert(place_block(s0, base, done) =~= s0);
            }
            assert(0 <= base) by (nonlinear_arith)
                requires
                    base == bi * (layers_n * 64),
            ;
        }
        let mut skip: usize = 0;
        let mut z: usize = 0;
        while z < layers
            invariant
                layers == layers_n,
                z <= layers,
                done.len() == z * 64,
                blocks_layers(*blocks) == layers_n,
                1024 * (layers_n * 64) <= isize::MAX,
                s0.len() == 1024 * (layers_n * 64),
                0 <= base,
                g == (bi < 1024),
                g ==> base == block_base(layers_n, bi as int),
                g ==> base + layers_n * 64 <= s0.len(),
                g ==> forall|j: int| base <= j < base + layers_n * 64 ==> s0[j] == Seq::<i32>::empty(),
                decoding(data@, off0, layers_n, g, base, s0, self.offset as int, skip as int, done, blocks_squares(*blocks)),
                off0 == old(self).offset as int,
                s0 == blocks_squares(*old(blocks)),
                layers_n == blocks_layers(*old(blocks)),
            decreases layers - z,
        {
            if skip >= 64 {
                proof {
                    lemma_skip_run(data@, self.offset as int, (layers_n * 64 - done.len()) as nat, skip as int, g, done, 64);
                    if g {
                        lemma_place_empty(s0, base, done, 64);
                    }
                    done = done + Seq::new(64, |i: int| Seq::<i32>::empty());
                }
                skip -= 64;
                z += 1;
                continue;
            }
            let mut x: usize = 0;
            while x < 8
                invariant
                    layers == layers_n,
                    z < layers,
                    x <= 8,
                    done.len() == z * 64 + x * 8,
                    blocks_layers(*blocks) == layers_n,
                    s0.len() == 1024 * (layers_n * 64),
                    0 <= base,
                    g == (bi < 1024),
                    g ==> base == block_base(layers_n, bi as int),
                    g ==> base + layers_n * 64 <= s0.len(),
                    g ==> forall|j: int| base <= j < base + layers_n * 64 ==> s0[j] == Seq::<i32>::empty(),
                    decoding(data@, off0, layers_n, g, base, s0, self.offset as int, skip as int, done, blocks_squares(*blocks)),
                    off0 == old(self).offset as int,
                    s0 == blocks_squares(*old(blocks)),
                    layers_n == blocks_layers(*old(blocks)),
                decreases 8 - x,
            {
                if skip >= 8 {
                    proof {
                        lemma_skip_run(data@, self.offset as int, (layers_n * 64 - done.len()) as nat, skip as int, g, done, 8);
                        if g {
                            lemma_place_empty(s0, base, done, 8);
                        }
                        done = done + Seq::new(8, |i: int| Seq::<i32>::empty());
                    }
                    skip -= 8;
                    x += 1;
                    continue;
                }
                let mut y: usize = 0;
                while y < 8
                    invariant
                        layers == layers_n,
                        z < layers,
                        x < 8,
                        y <= 8,
                        done.len() == z * 64 + x * 8 + y,
                        blocks_layers(*blocks) == layers_n,
                        s0.len() == 1024 * (layers_n * 64),
                        0 <= base,
                        g == (bi < 1024),
                        g ==> base == block_base(layers_n, bi as int),
                        g ==> base + layers_n * 64 <= s0.len(),
                        g ==> forall|j: int| base <= j < base + layers_n * 64 ==> s0[j] == Seq::<i32>::empty(),
                        decoding(data@, off0, layers_n, g, base, s0, self.offset as int, skip as int, done, blocks_squares(*blocks)),
                        off0 == old(self).offset as int,
                        s0 == blocks_squares(*old(blocks)),
                        layers_n == blocks_layers(*old(blocks)),
                    decreases 8 - y,
                {
                    if skip > 0 {
                        proof {
                            lemma_skip_run(data@, self.offset as int, (layers_n * 64 - done.len()) as nat, skip as int, g, done, 1);
                            if g {
                                lemma_place_empty(s0, base, done, 1);
                            }
                            done = done + Seq::new(1, |i: int| Seq::<i32>::empty());
                        }
                        skip -= 1;
                        y += 1;
                        continue;
                    }
                    let ghost off_sq = self.offset as int;
                    let ghost idx = base + done.len();
                    proof {
                        if g {
                            assert(square_index(layers_n, bi as int, z as int, x as int, y as int) == idx);
                            assert(place_block(s0, base, done)[idx] == s0[idx]);
                        }
                    }
                    let s = match self.read_square(data, blocks, bi, z, x, y) {
                        Ok(s) => s,
                        Err(e) => return Err(e),
                    };
                    proof {
                        let sq = square_at(data@, off_sq, 0, g)->Ok_0;
                        if g {
                            lemma_place_push(s0, base, done, sq.0);
                        }
                        done = done.push(sq.0);
                    }
                    skip = s;
                    y += 1;
                }
                x += 1;
            }
            z += 1;
        }
        proof {
            assert(squares_from(data@, self.offset as int, 0, skip as int, g, done) == Ok::<Seq<Seq<i32>>, ZError>(done));
        }
        Ok(())
    }

    /// Decodes one square that is not skipped and writes its tile ids into
    /// `blocks`; returns how many following squares to skip.
    fn read_square(
        &mut self,
        data: &[u8],
        blocks: &mut Blocks,
        bi: usize,
        z: usize,
        x: usize,
        y: usize,
    ) -> (r: ZResult<usize>)
        requires
            z < blocks_layers(*old(blocks)),
            x < 8,
            y < 8,
            bi < 1024 ==> 0 <= square_index(blocks_layers(*old(blocks)), bi as int, z as int, x as int, y as int) < blocks_squares(*old(blocks)).len(),
            bi < 1024 ==> blocks_squares(*old(blocks))[square_index(blocks_layers(*old(blocks)), bi as int, z as int, x as int, y as int)]
                == Seq::<i32>::empty(),
        ensures
            blocks_layers(*final(blocks)) == blocks_layers(*old(blocks)),
            match square_at(data@, old(self).offset as int, 0, bi < 1024) {
                Ok((vals, o, s)) => r == Ok::<usize, ZError>(s as usize) && final(self).offset == o
                    && blocks_squares(*final(blocks)) == (if bi < 1024 {
                    blocks_squares(*old(blocks)).update(
                        square_index(blocks_layers(*old(blocks)), bi as int, z as int, x as int, y as int),
                        vals,
                    )
                } else {
                    blocks_squares(*old(blocks))
                }),
                Err(e) => r == Err::<usize, ZError>(e),
            },
    {
        let ghost g = bi < 1024;
        let ghost idx = square_index(blocks_layers(*blocks), bi as int, z as int, x as int, y as int);
        let count = match self.read_i32(data) {
            Ok(v) => v,
            Err(e) => return Err(e),
        };
        if count == -1 {
            let run = match self.read_i32(data) {
                Ok(v) => v,
                Err(e) => return Err(e),
            };
            let skip = run as usize;
            if skip > 0 {
                return Ok(skip - 1);
            }
            proof {
                if g {
                    assert(blocks_squares(*blocks).update(idx, Seq::<i32>::empty()) =~= blocks_squares(*blocks));
                }
            }
            return Ok(0);
        }
        if count <= 1 {
            proof {
                if g {
                    assert(blocks_squares(*blocks).update(idx, Seq::<i32>::empty()) =~= blocks_squares(*blocks));
                }
            }
            return Ok(0);
        }
        let _room = match self.read_i32(data) {
            Ok(v) => v,
            Err(e) => return Err(e),
        };
        let n = count - 1;
        if bi >= BLOCKS_PER_CELL {
            return Err(ZError::InvalidData);
        }
        let ghost start = self.offset as int;
        let ghost s0 = blocks_squares(*blocks);
        let ghost layers0 = blocks_layers(*blocks);
        let ghost mut vals: Seq<i32> = Seq::empty();
        let ghost whole = square_at(data@, old(self).offset as int, 0, g);
        assert(whole == match values_from(data@, start, n as nat, g, Seq::empty()) {
            Err(e) => Err(e),
            Ok((vs, o3)) => Ok((vs, o3, 0int)),
        });
        assert(s0.update(idx, vals) =~= s0);
        let mut k: i32 = 0;
        while k < n
            invariant
                0 <= k <= n,
                vals.len() == k,
                blocks_layers(*blocks) == layers0,
                layers0 == blocks_layers(*old(blocks)),
                s0 == blocks_squares(*old(blocks)),
                whole == square_at(data@, old(self).offset as int, 0, g),
                whole == match values_from(data@, start, n as nat, g, Seq::empty()) {
                    Err(e) => Err(e),
                    Ok((vs, o3)) => Ok((vs, o3, 0int)),
                },
                g,
                0 <= idx < s0.len(),
                idx == square_index(blocks_layers(*blocks), bi as int, z as int, x as int, y as int),
                z < blocks_layers(*blocks),
                x < 8,
                y < 8,
                bi < 1024,
                values_from(data@, start, n as nat, g, Seq::empty()) == values_from(
                    data@,
                    self.offset as int,
                    (n - k) as nat,
                    g,
                    vals,
                ),
                blocks_squares(*blocks) == s0.update(idx, vals),
            decreases n - k,
        {
            let v = match self.read_i32(data) {
                Ok(v) => v,
                Err(e) => return Err(e),
            };
            if k >= 16 {
                return Err(ZError::InvalidData);
            }
            blocks_push(blocks, bi, z, x, y, v);
            proof {
                assert(s0.update(idx, vals).update(idx, vals.push(v)) =~= s0.update(idx, vals.push(v)));
                vals = vals.push(v);
            }
            k += 1;
        }
        Ok(0)
    }
}

/// Decoding `n` more squares yields `n` more squares.
pub proof fn lemma_squares_len(d: Seq<u8>, off: int, n: nat, skip: int, g: bool, done: Seq<Seq<i32>>)
    ensures
        squares_from(d, off, n, skip, g, done) matches Ok(s) ==> s.len() == done.len() + n,
    decreases n,
{
    if n > 0 {
        if let Ok((sq, o, s)) = square_at(d, off, skip, g) {
            lemma_squares_len(d, o, (n - 1) as nat, s, g, done.push(sq));
        }
    }
}

/// Skipping `m` squares of a run gives `m` empty squares.
pub proof fn lemma_skip_run(
    d: Seq<u8>,
    off: int,
    n: nat,
    skip: int,
    g: bool,
    done: Seq<Seq<i32>>,
    m: nat,
)
    requires
        m <= skip,
        m <= n,
    ensures
        squares_from(d, off, n, skip, g, done) == squares_from(
            d,
            off,
            (n - m) as nat,
            skip - m,
            g,
            done + Seq::new(m, |i: int| Seq::<i32>::empty()),
        ),
    decreases m,
{
    if m == 0 {
        assert(done + Seq::new(0, |i: int| Seq::<i32>::empty()) =~= done);
    } else {
        let done1 = done.push(Seq::<i32>::empty());
        lemma_skip_run(d, off, (n - 1) as nat, skip - 1, g, done1, (m - 1) as nat);
        assert(done1 + Seq::new((m - 1) as nat, |i: int| Seq::<i32>::empty()) =~= done + Seq::new(
            m,
            |i: int| Seq::<i32>::empty(),
        ));
    }
}


/// A cell read from its file stores exactly the layers its header names, so
/// every layer that `has_layer` accepts can be passed to `get_block`.
pub proof fn lemma_parsed_layers_readable(d: Seq<u8>, start: int, min_layer: i32, max_layer: i32, layer: i32)
    requires
        parse_lotpack(d, start, min_layer, max_layer) is Ok,
        min_layer <= layer < max_layer,
    ensures
        parse_lotpack(d, start, min_layer, max_layer)->Ok_0.0 == max_layer - min_layer,
        0 <= layer_index(layer, min_layer) < parse_lotpack(d, start, min_layer, max_layer)->Ok_0.0,
{
}


/// Decoding blocks from `i0` on keeps the grid's length and every square
/// that lies before block `i0`.
proof fn lemma_blocks_keep_before(d: Seq<u8>, i0: nat, n: nat, layers: nat, grid: Seq<Seq<i32>>, j: int)
    requires
        blocks_from(d, i0, n, layers, grid) is Ok,
    ensures
        blocks_from(d, i0, n, layers, grid)->Ok_0.len() == grid.len(),
        0 <= j < block_base(layers, i0 as int) && j < grid.len() ==> blocks_from(d, i0, n, layers, grid)->Ok_0[j] == grid[j],
    decreases n - i0,
{
    if i0 < n {
        let (o, _) = read_u32_spec(d, (12 + 8 * i0) as int)->Ok_0;
        let sq = squares_from(d, o as int, layers * 64, 0, i0 < 1024, Seq::empty())->Ok_0;
        let g1 = if i0 < 1024 { place_block(grid, block_base(layers, i0 as int), sq) } else { grid };
        assert(block_base(layers, i0 as int) <= block_base(layers, (i0 + 1) as int)) by (nonlinear_arith);
        lemma_blocks_keep_before(d, i0 + 1, n, layers, g1, j);
    }
}

/// Block `i` of a run of blocks decoded from `i0` on is decoded from the
/// offset stored at byte `12 + 8 i` of the block table, and its squares are
/// written at the block's place in the grid.
proof fn lemma_block_from_table(d: Seq<u8>, i0: nat, n: nat, layers: nat, grid: Seq<Seq<i32>>, i: nat)
    requires
        blocks_from(d, i0, n, layers, grid) is Ok,
        i0 <= i < n,
        i < 1024,
        grid.len() == 1024 * (layers * 64),
    ensures
        fits4(d, (12 + 8 * i) as int),
        squares_from(d, le_u32_at(d, (12 + 8 * i) as int) as int, layers * 64, 0, true, Seq::empty()) matches Ok(sq) && forall|k: int|
            0 <= k < layers * 64 ==> blocks_from(d, i0, n, layers, grid)->Ok_0[block_base(layers, i as int) + k] == sq[k],
    decreases n - i0,
{
    let (o, _) = read_u32_spec(d, (12 + 8 * i0) as int)->Ok_0;
    let sq = squares_from(d, o as int, layers * 64, 0, i0 < 1024, Seq::empty())->Ok_0;
    let g1 = if i0 < 1024 { place_block(grid, block_base(layers, i0 as int), sq) } else { grid };
    if i0 == i {
        lemma_squares_len(d, o as int, layers * 64, 0, true, Seq::empty());
        assert(block_base(layers, i as int) + layers * 64 <= 1024 * (layers * 64)) by (nonlinear_arith)
            requires
                i < 1024,
        ;
        assert(block_base(layers, i as int) + layers * 64 == block_base(layers, (i + 1) as int)) by (nonlinear_arith);
        assert forall|k: int| 0 <= k < layers * 64 implies blocks_from(d, i0, n, layers, grid)->Ok_0[block_base(layers, i as int) + k] == sq[k] by {
            lemma_blocks_keep_before(d, i0 + 1, n, layers, g1, block_base(layers, i as int) + k);
        }
    } else {
        lemma_block_from_table(d, i0 + 1, n, layers, g1, i);
    }
}

/// The table of a `.lotpack` file holds, at byte `12 + 8 i`, where block
/// `i` starts: in a parsed cell, the squares of block `i` are those decoded
/// from that offset.
pub proof fn lemma_parsed_block_from_table(d: Seq<u8>, start: int, min_layer: i32, max_layer: i32, i: nat)
    requires
        parse_lotpack(d, start, min_layer, max_layer) is Ok,
        i < 1024,
        i < le_u32_at(d, start + 4),
    ensures
        ({
            let (layers, squares) = parse_lotpack(d, start, min_layer, max_layer)->Ok_0;
            &&& fits4(d, (12 + 8 * i) as int)
            &&& squares_from(d, le_u32_at(d, (12 + 8 * i) as int) as int, layers * 64, 0, true, Seq::empty()) matches Ok(sq)
                && forall|k: int| 0 <= k < layers * 64 ==> squares[block_base(layers, i as int) + k] == sq[k]
        }),
{
    let layers = parse_lotpack(d, start, min_layer, max_layer)->Ok_0.0;
    let n = le_u32_at(d, start + 4);
    lemma_block_from_table(d, 0, n as nat, layers, Seq::new(1024 * (layers * 64), |i: int| Seq::<i32>::empty()), i);
}


/// In a parsed cell, the tiles on square `(bx, by)` at `layer` are those
/// the file stores for it: square `(bx % 8, by % 8)` of z-level
/// `layer - min_layer` in block `(bx / 8) * 32 + by / 8`, decoded from the
/// offset the block table holds for that block.
pub proof fn lemma_parsed_square_from_table(
    d: Seq<u8>,
    start: int,
    min_layer: i32,
    max_layer: i32,
    bx: int,
    by: int,
    layer: i32,
)
    requires
        parse_lotpack(d, start, min_layer, max_layer) is Ok,
        0 <= bx < 256,
        0 <= by < 256,
        min_layer <= layer < max_layer,
        (bx / 8) * 32 + by / 8 < le_u32_at(d, start + 4),
    ensures
        ({
            let (layers, squares) = parse_lotpack(d, start, min_layer, max_layer)->Ok_0;
            let b = (bx / 8) * 32 + by / 8;
            squares_from(d, le_u32_at(d, 12 + 8 * b) as int, layers * 64, 0, true, Seq::empty()) matches Ok(sq)
                && squares[cell_square_index(layers, bx, by, layer_index(layer, min_layer))]
                == sq[(layer - min_layer) * 64 + (bx % 8) * 8 + by % 8]
        }),
{
    let layers = parse_lotpack(d, start, min_layer, max_layer)->Ok_0.0;
    let b = (bx / 8) * 32 + by / 8;
    assert(0 <= b < 1024);
    lemma_parsed_block_from_table(d, start, min_layer, max_layer, b as nat);
    let z = layer - min_layer;
    assert(layers == max_layer - min_layer);
    assert(z * 64 + (bx % 8) * 8 + by % 8 < layers * 64);
}

} // verus!
