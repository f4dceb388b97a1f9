//! Readers and layout logic for Project Zomboid map data: `.lotheader` and
//! `.lotpack` cell files, `.pack` texture atlases, the isometric projection,
//! the multi-cell world plane and the DeepZoom tile pyramid.
use vstd::prelude::*;

pub mod le;
pub mod text;
pub mod header;
pub mod cell;
pub mod pack;
pub mod dzi;
pub mod iso_render;
pub mod world;
pub mod cache;
pub mod render_backend;
pub mod texture;

verus! {

/// Why a map file could not be read.
#[derive(Debug, Clone, Copy, PartialEq, Eq, Structural)]
pub enum ZError {
    /// The data ends before a value that must be read.
    Slice,
    /// A name that must be UTF-8 is not.
    Utf8,
    /// An image inside the file cannot be decoded.
    Image,
    /// A field holds a value that the format does not allow: a wrong magic
    /// number, a negative count, an arithmetic overflow, an unsupported
    /// version, a missing terminator or an over-full block.
    InvalidData,
}

pub type ZResult<T> = Result<T, ZError>;

/// The contents of a `Bytes` buffer.
pub uninterp spec fn bytes_contents(b: bytes::Bytes) -> Seq<u8>;

#[verifier::external_type_specification]
#[verifier::external_body]
pub struct ExBytes(bytes::Bytes);

/// Calls `bytes::Bytes::copy_from_slice`, which copies `data` into a new
/// buffer: the buffer holds exactly those bytes.
#[verifier::external_body]
pub(crate) fn bytes_copy_from_slice(data: &[u8]) -> (r: bytes::Bytes)
    ensures
        bytes_contents(r) == data@,
{
    bytes::Bytes::copy_from_slice(data)
}

/// A rectangle of squares: `(x, y, width, height)`.
#[derive(Default, Debug, Copy, Clone, PartialEq, Eq, Structural)]
pub struct Rect(pub i32, pub i32, pub i32, pub i32);

/// An object placed in a room: three integers as stored in the header.
#[derive(Default, Debug, Copy, Clone, PartialEq, Eq, Structural)]
pub struct Obj(pub i32, pub i32, pub i32);

/// A building: its index and the ids of its rooms.
#[derive(Default, Debug, Clone)]
pub struct Building {
    pub id: u32,
    pub rooms: Vec<u32>,
}

/// A named room made of rectangles, with its area and bounding box.
#[derive(Default, Debug, Clone)]
pub struct Room {
    pub id: usize,
    pub name: String,
    pub layer: i32,
    pub area: i32,
    pub rects: Vec<Rect>,
    pub objects: Vec<Obj>,
    pub xmin: i32,
    pub ymin: i32,
    pub xmax: i32,
    pub ymax: i32,
}

/// The decoded contents of a `.lotheader` file.
#[derive(Default, Debug, Clone)]
pub struct LotHeader {
    pub version: u32,
    pub width: u32,
    pub height: u32,
    /// One past the highest stored z-level.
    pub max_layer: i32,
    /// The lowest stored z-level.
    pub min_layer: i32,
    pub tiles: Vec<String>,
    pub rooms: Vec<Room>,
    pub buildings: Vec<Building>,
    pub zpop: Vec<bytes::Bytes>,
}

/// The mathematical value of a [`Building`].
pub struct BuildingView {
    pub id: u32,
    pub rooms: Seq<u32>,
}

/// The mathematical value of a [`Room`].
pub struct RoomView {
    pub id: usize,
    pub name: Seq<char>,
    pub layer: i32,
    pub area: i32,
    pub rects: Seq<Rect>,
    pub objects: Seq<Obj>,
    pub xmin: i32,
    pub ymin: i32,
    pub xmax: i32,
    pub ymax: i32,
}

/// The mathematical value of a [`LotHeader`].
pub struct LotHeaderView {
    pub version: u32,
    pub width: u32,
    pub height: u32,
    pub max_layer: i32,
    pub min_layer: i32,
    pub tiles: Seq<Seq<char>>,
    pub rooms: Seq<RoomView>,
    pub buildings: Seq<BuildingView>,
    pub zpop: Seq<Seq<u8>>,
}

impl View for Building {
    type V = BuildingView;

    open spec fn view(&self) -> BuildingView {
        BuildingView { id: self.id, rooms: self.rooms@ }
    }
}

impl View for Room {
    type V = RoomView;

    open spec fn view(&self) -> RoomView {
        RoomView {
            id: self.id,
            name: self.name@,
            layer: self.layer,
            area: self.area,
            rects: self.rects@,
            objects: self.objects@,
            xmin: self.xmin,
            ymin: self.ymin,
            xmax: self.xmax,
            ymax: self.ymax,
        }
    }
}

impl View for LotHeader {
    type V = LotHeaderView;

    open spec fn view(&self) -> LotHeaderView {
        LotHeaderView {
            version: self.version,
            width: self.width,
            height: self.height,
            max_layer: self.max_layer,
            min_layer: self.min_layer,
            tiles: self.tiles@.map_values(|s: String| s@),
            rooms: self.rooms@.map_values(|r: Room| r@),
            buildings: self.buildings@.map_values(|b: Building| b@),
            zpop: self.zpop@.map_values(|b: bytes::Bytes| bytes_contents(b)),
        }
    }
}

} // verus!
