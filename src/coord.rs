use vstd::prelude::*;

verus! {

/// Side of the whole terrain, in pixels. A power of two.
pub const SIZE: usize = 1024;

/// Side of a chunk, in pixels. A power of two.
pub const CHUNK_SIZE: usize = 64;

/// Side of the whole terrain, in chunks.
pub const SIZE_CHUNKS: usize = 16;

/// A terrain pixel, by column and row.
#[derive(Copy, Clone, Debug, PartialEq, Eq, Structural)]
pub struct Coord(pub usize, pub usize);

/// A terrain chunk, by column and row of chunks.
#[derive(Copy, Clone, Debug, PartialEq, Eq, Structural)]
pub struct ChunkId(pub u16, pub u16);

/// A pixel within a chunk, by column and row.
#[derive(Copy, Clone, Debug, PartialEq, Eq, Structural)]
pub struct RelativeCoord(pub u8, pub u8);

impl Coord {
    pub open spec fn in_terrain(self) -> bool {
        self.0 < SIZE && self.1 < SIZE
    }

    /// The coordinate offset by a pixel within a chunk.
    pub fn offset(self, rhs: RelativeCoord) -> (r: Coord)
        requires
            self.0 + rhs.0 <= usize::MAX,
            self.1 + rhs.1 <= usize::MAX,
        ensures
            r == Coord((self.0 + rhs.0) as usize, (self.1 + rhs.1) as usize),
    {
        Coord(self.0 + rhs.0 as usize, self.1 + rhs.1 as usize)
    }
}

impl ChunkId {
    pub open spec fn valid(self) -> bool {
        self.0 < SIZE_CHUNKS && self.1 < SIZE_CHUNKS
    }

    /// Position of the chunk in row-major order.
    pub open spec fn index_spec(self) -> int {
        self.0 + self.1 * SIZE_CHUNKS
    }

    /// The chunk at a position in row-major order.
    pub open spec fn from_index_spec(index: int) -> ChunkId {
        ChunkId((index % 16) as u16, (index / 16) as u16)
    }

    pub fn as_index(&self) -> (r: usize)
        requires
            self.valid(),
        ensures
            r == self.index_spec(),
            r < SIZE_CHUNKS * SIZE_CHUNKS,
    {
        self.0 as usize + self.1 as usize * SIZE_CHUNKS
    }

    pub fn from_index(index: usize) -> (r: Self)
        requires
            index < SIZE_CHUNKS * SIZE_CHUNKS,
        ensures
            r.valid(),
            r.0 == index % SIZE_CHUNKS,
            r.1 == index / SIZE_CHUNKS,
            r.index_spec() == index,
            r == Self::from_index_spec(index as int),
    {
        ChunkId((index % SIZE_CHUNKS) as u16, (index / SIZE_CHUNKS) as u16)
    }

    /// The pixel at the chunk's lowest corner.
    pub fn as_coord(&self) -> (r: Coord)
        ensures
            r == Coord((self.0 * CHUNK_SIZE) as usize, (self.1 * CHUNK_SIZE) as usize),
    {
        Coord(self.0 as usize * CHUNK_SIZE, self.1 as usize * CHUNK_SIZE)
    }

    /// The chunk that holds a pixel.
    pub fn from_coord(coord: Coord) -> (r: Self)
        requires
            coord.in_terrain(),
        ensures
            r == ChunkId((coord.0 / CHUNK_SIZE) as u16, (coord.1 / CHUNK_SIZE) as u16),
            r.valid(),
    {
        ChunkId((coord.0 / CHUNK_SIZE) as u16, (coord.1 / CHUNK_SIZE) as u16)
    }
}

impl RelativeCoord {
    pub open spec fn in_chunk(self) -> bool {
        self.0 < CHUNK_SIZE && self.1 < CHUNK_SIZE
    }

    /// The position of a pixel within its chunk.
    pub fn from_coord(coord: Coord) -> (r: Self)
        ensures
            r == RelativeCoord((coord.0 % CHUNK_SIZE) as u8, (coord.1 % CHUNK_SIZE) as u8),
            r.in_chunk(),
    {
        RelativeCoord((coord.0 % CHUNK_SIZE) as u8, (coord.1 % CHUNK_SIZE) as u8)
    }

    /// The pixel of the terrain, given the chunk this coordinate lies in.
    pub fn _into_coord(self, chunk_id: ChunkId) -> (r: Coord)
        ensures
            r == Coord(
                (self.0 + chunk_id.0 * CHUNK_SIZE) as usize,
                (self.1 + chunk_id.1 * CHUNK_SIZE) as usize,
            ),
    {
        Coord(
            self.0 as usize + chunk_id.0 as usize * CHUNK_SIZE,
            self.1 as usize + chunk_id.1 as usize * CHUNK_SIZE,
        )
    }

    /// The pixel of the terrain as though the chunk were at the origin.
    pub fn into_absolute_coord(self) -> (r: Coord)
        ensures
            r == Coord(self.0 as usize, self.1 as usize),
    {
        Coord(self.0 as usize, self.1 as usize)
    }

    pub fn add(self, rhs: Self) -> (r: Self)
        requires
            self.0 + rhs.0 <= u8::MAX,
            self.1 + rhs.1 <= u8::MAX,
        ensures
            r == RelativeCoord((self.0 + rhs.0) as u8, (self.1 + rhs.1) as u8),
    {
        RelativeCoord(self.0 + rhs.0, self.1 + rhs.1)
    }
}

/// One pixel edit, packed in sixteen bits: `{x:6, y:6, nibble:4}`.
#[derive(Copy, Clone, Debug, PartialEq, Eq, Structural)]
pub struct Mod {
    pub data: u16,
}

impl Mod {
    pub open spec fn pack(coord: RelativeCoord, value: u8) -> int {
        coord.0 * 1024 + coord.1 * 16 + value / 16
    }

    pub fn new(coord: RelativeCoord, value: u8) -> (r: Self)
        requires
            coord.in_chunk(),
        ensures
            r.data == Self::pack(coord, value),
    {
        let x = coord.0 as u16;
        let y = coord.1 as u16;
        let real_value = (value / 16) as u16;
        Mod { data: x * 1024 + y * 16 + real_value }
    }

    pub fn to_coord_and_value(&self) -> (r: (RelativeCoord, u8))
        ensures
            r.0 == RelativeCoord((self.data / 1024) as u8, ((self.data / 16) % 64) as u8),
            r.0.in_chunk(),
            r.1 == (self.data % 16) * 16,
    {
        let x = (self.data / 1024) as u8;
        let y = ((self.data / 16) % 64) as u8;
        let amount = ((self.data % 16) as u8) * 16;
        (RelativeCoord(x, y), amount)
    }

    /// Little-endian bytes of the packed edit.
    pub fn to_bytes(&self) -> (r: [u8; 2])
        ensures
            r@ == seq![(self.data % 256) as u8, (self.data / 256) as u8],
    {
        let r = [(self.data % 256) as u8, (self.data / 256) as u8];
        r
    }

    pub fn from_bytes(bytes: [u8; 2]) -> (r: Self)
        ensures
            r.data == bytes@[0] + 256 * bytes@[1],
    {
        Mod { data: bytes[0] as u16 + 256 * bytes[1] as u16 }
    }

    /// Packing an edit and unpacking it gives back the pixel and the high nibble of its value.
    pub proof fn lemma_round_trip(coord: RelativeCoord, value: u8)
        requires
            coord.in_chunk(),
        ensures
            ({
                let d = Self::pack(coord, value);
                d / 1024 == coord.0 && (d / 16) % 64 == coord.1 && (d % 16) * 16 == (value / 16)
                    * 16
            }),
    {
        let d = Self::pack(coord, value);
        assert(d / 16 == coord.0 * 64 + coord.1) by (nonlinear_arith)
            requires
                d == coord.0 * 1024 + coord.1 * 16 + value / 16,
                value / 16 < 16,
                0 <= value / 16,
        ;
        assert(d % 16 == value / 16) by (nonlinear_arith)
            requires
                d == coord.0 * 1024 + coord.1 * 16 + value / 16,
                value / 16 < 16,
                0 <= value / 16,
        ;
        assert(d / 1024 == coord.0) by (nonlinear_arith)
            requires
                d == coord.0 * 1024 + coord.1 * 16 + value / 16,
                value / 16 < 16,
                0 <= value / 16,
                coord.1 < 64,
                0 <= coord.1,
        ;
        assert((coord.0 * 64 + coord.1) % 64 == coord.1) by (nonlinear_arith)
            requires
                coord.1 < 64,
                0 <= coord.1,
                0 <= coord.0,
        ;
    }

    /// Writing an edit as bytes and reading it back gives the same edit.
    pub proof fn lemma_bytes_round_trip(m: Mod)
        ensures
            (m.data % 256) as u8 + 256 * ((m.data / 256) as u8) == m.data,
    {
    }
}

} // verus!
