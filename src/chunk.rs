use vstd::prelude::*;
use crate::compress::{nibble_value, decode, encode, encode_step, lemma_decode_encode, nibbles, Compressor, Decompressor};
use crate::coord::{ChunkId, Coord, Mod, RelativeCoord, CHUNK_SIZE};

verus! {

/// Number of pixels in a chunk.
pub const CHUNK_PIXELS: usize = 4096;

/// Number of bytes a chunk stores: two pixels per byte.
pub const CHUNK_BYTES: usize = 2048;

/// Position of the pixel `(x, y)` of a chunk in row-major order.
pub open spec fn cell(x: int, y: int) -> int {
    y * 64 + x
}

/// The pixel `(x, y)` of a chunk's bytes: even columns in the high nibble, odd ones in the low.
pub open spec fn pixel(data: Seq<u8>, x: int, y: int) -> u8 {
    let b = data[y * 32 + x / 2];
    if x % 2 == 0 {
        nibble_value(b)
    } else {
        ((b % 16) * 16) as u8
    }
}

/// A chunk's pixels in row-major order.
pub open spec fn pixels_of(data: Seq<u8>) -> Seq<u8> {
    Seq::new(CHUNK_PIXELS as nat, |i: int| pixel(data, i % 64, i / 64))
}

/// The point of the Hilbert curve of sixteen-bit indices at index `h`.
pub uninterp spec fn hilbert_xy(h: u16) -> (u8, u8);

/// Relies on fast_hilbert::h2xy: the point of the Hilbert curve at an index, a function of
/// the index alone.
#[verifier::external_body]
fn h2xy(h: u16) -> (r: (u8, u8))
    ensures
        r == hilbert_xy(h),
{
    fast_hilbert::h2xy::<u8>(h)
}

/// The pixel of a chunk, by row-major position, at index `i` of the curve (if within the chunk).
pub open spec fn hilbert_cell(i: int) -> int {
    cell(hilbert_xy(i as u16).0 as int, hilbert_xy(i as u16).1 as int)
}

/// Whether the first `CHUNK_PIXELS` points of the curve visit every pixel of a chunk exactly once.
pub open spec fn hilbert_covers_chunk() -> bool {
    &&& forall|i: int| 0 <= i < CHUNK_PIXELS ==> hilbert_xy(#[trigger] (i as u16)).0 < 64 && hilbert_xy(i as u16).1 < 64
    &&& forall|i: int, j: int| 0 <= i < j < CHUNK_PIXELS ==> #[trigger] hilbert_cell(i) != #[trigger] hilbert_cell(j)
    &&& forall|c: int| 0 <= c < CHUNK_PIXELS ==> #[trigger] hilbert_visits(c)
}

/// Whether one of the first `CHUNK_PIXELS` points of the curve is the pixel at row-major position `c`.
pub open spec fn hilbert_visits(c: int) -> bool {
    exists|i: int| 0 <= i < CHUNK_PIXELS && #[trigger] hilbert_cell(i) == c
}

/// The order in which a chunk's pixels are encoded: the first points of the Hilbert curve,
/// checked to visit every pixel of a chunk exactly once.
pub struct HilbertTable {
    to_coord: Vec<RelativeCoord>,
    to_index: Vec<usize>,
}

impl HilbertTable {
    pub open spec fn wf(&self) -> bool {
        &&& self.coords().len() == CHUNK_PIXELS
        &&& self.indices().len() == CHUNK_PIXELS
        &&& forall|i: int|
            0 <= i < CHUNK_PIXELS ==> (#[trigger] self.coords()[i]).in_chunk()
                && self.indices()[cell(self.coords()[i].0 as int, self.coords()[i].1 as int)]
                == i
        &&& forall|c: int|
            0 <= c < CHUNK_PIXELS ==> (#[trigger] self.indices()[c]) < CHUNK_PIXELS && cell(
                self.coords()[self.indices()[c] as int].0 as int,
                self.coords()[self.indices()[c] as int].1 as int,
            ) == c
    }

    /// The pixel at each position of the curve.
    pub closed spec fn coords(&self) -> Seq<RelativeCoord> {
        self.to_coord@
    }

    /// The position on the curve of each pixel, in row-major order.
    pub closed spec fn indices(&self) -> Seq<usize> {
        self.to_index@
    }

    /// Lays out the curve; `None` where its first points do not cover the chunk exactly once.
    pub fn new() -> (r: Option<Self>)
        ensures
            r is Some <==> hilbert_covers_chunk(),
            r matches Some(t) ==> t.wf() && forall|i: int|
                0 <= i < CHUNK_PIXELS ==> #[trigger] t.coords()[i] == RelativeCoord(
                    hilbert_xy(i as u16).0,
                    hilbert_xy(i as u16).1,
                ),
    {
        let mut to_coord: Vec<RelativeCoord> = Vec::new();
        let mut to_index: Vec<usize> = vec![CHUNK_PIXELS; CHUNK_PIXELS];
        let mut i: usize = 0;
        while i < CHUNK_PIXELS
            invariant
                i <= CHUNK_PIXELS,
                to_coord@.len() == i,
                to_index@.len() == CHUNK_PIXELS,
                forall|j: int|
                    0 <= j < i ==> (#[trigger] to_coord@[j]).in_chunk() && to_index@[cell(
                        to_coord@[j].0 as int,
                        to_coord@[j].1 as int,
                    )] == j && to_coord@[j] == RelativeCoord(
                        hilbert_xy(j as u16).0,
                        hilbert_xy(j as u16).1,
                    ),
                forall|c: int|
                    0 <= c < CHUNK_PIXELS && #[trigger] to_index@[c] != CHUNK_PIXELS ==> to_index@[c]
                        < i && cell(
                        to_coord@[to_index@[c] as int].0 as int,
                        to_coord@[to_index@[c] as int].1 as int,
                    ) == c,
            decreases CHUNK_PIXELS - i,
        {
            let (x, y) = h2xy(i as u16);
            if x >= 64 || y >= 64 {
                proof {
                    assert(!(hilbert_xy((i as int) as u16).0 < 64 && hilbert_xy((i as int) as u16).1 < 64));
                }
                return None;
            }
            let c: usize = y as usize * 64 + x as usize;
            if to_index[c] != CHUNK_PIXELS {
                proof {
                    let j = to_index@[c as int] as int;
                    assert(hilbert_cell(j) == c);
                    assert(hilbert_cell(i as int) == c);
                }
                return None;
            }
            to_index.set(c, i);
            to_coord.push(RelativeCoord(x, y));
            i += 1;
        }
        let mut c: usize = 0;
        while c < CHUNK_PIXELS
            invariant
                c <= CHUNK_PIXELS,
                to_index@.len() == CHUNK_PIXELS,
                forall|k: int| 0 <= k < c ==> #[trigger] to_index@[k] != CHUNK_PIXELS,
                to_coord@.len() == CHUNK_PIXELS,
                forall|j: int|
                    0 <= j < CHUNK_PIXELS ==> (#[trigger] to_coord@[j]).in_chunk() && to_index@[cell(
                        to_coord@[j].0 as int,
                        to_coord@[j].1 as int,
                    )] == j && to_coord@[j] == RelativeCoord(
                        hilbert_xy(j as u16).0,
                        hilbert_xy(j as u16).1,
                    ),
                forall|k: int|
                    0 <= k < CHUNK_PIXELS && #[trigger] to_index@[k] != CHUNK_PIXELS ==> to_index@[k]
                        < CHUNK_PIXELS && cell(
                        to_coord@[to_index@[k] as int].0 as int,
                        to_coord@[to_index@[k] as int].1 as int,
                    ) == k,
            decreases CHUNK_PIXELS - c,
        {
            if to_index[c] == CHUNK_PIXELS {
                proof {
                    assert forall|i: int| 0 <= i < CHUNK_PIXELS implies #[trigger] hilbert_cell(i) != c by {
                        assert(to_coord@[i] == RelativeCoord(hilbert_xy(i as u16).0, hilbert_xy(i as u16).1));
                    }
                    assert(!hilbert_visits(c as int));
                }
                return None;
            }
            c += 1;
        }
        proof {
            assert forall|i: int, j: int| 0 <= i < j < CHUNK_PIXELS implies #[trigger] hilbert_cell(i) != #[trigger] hilbert_cell(j) by {
                assert(to_coord@[i] == RelativeCoord(hilbert_xy(i as u16).0, hilbert_xy(i as u16).1));
                assert(to_coord@[j] == RelativeCoord(hilbert_xy(j as u16).0, hilbert_xy(j as u16).1));
            }
            assert forall|cc: int| 0 <= cc < CHUNK_PIXELS implies #[trigger] hilbert_visits(cc) by {
                let i = to_index@[cc] as int;
                assert(to_coord@[i] == RelativeCoord(hilbert_xy(i as u16).0, hilbert_xy(i as u16).1));
                assert(hilbert_cell(i) == cc);
            }
            assert forall|i: int| 0 <= i < CHUNK_PIXELS implies hilbert_xy(#[trigger] (i as u16)).0 < 64 && hilbert_xy(i as u16).1 < 64 by {
                assert(to_coord@[i].in_chunk());
            }
        }
        Some(HilbertTable { to_coord, to_index })
    }

    /// The pixel at a position of the curve.
    pub fn coord(&self, i: usize) -> (r: RelativeCoord)
        requires
            self.wf(),
            i < CHUNK_PIXELS,
        ensures
            r == self.coords()[i as int],
            r.in_chunk(),
    {
        self.to_coord[i]
    }
}


/// What happened to a chunk during a tick.
pub enum ChunkUpdate {
    /// No changes.
    Unchanged,
    /// The pixels modified so far.
    Coords(Vec<RelativeCoord>),
    /// The modifications encoded as packed two-byte edits.
    Mods(Vec<u8>),
    /// The whole chunk is to be sent.
    Complete,
}

/// A chunk as sent over the network: either packed edits or the whole encoded chunk.
pub struct SerializedChunk {
    pub is_update: bool,
    pub bytes: Vec<u8>,
}

/// A square of 64 by 64 terrain pixels, two to a byte.
pub struct Chunk {
    data: Vec<u8>,
    next_regen: Option<u64>,
    update: ChunkUpdate,
}

proof fn lemma_nibbles(lo: int, hi: int)
    requires
        0 <= lo < 16,
        0 <= hi < 16,
    ensures
        (lo + hi * 16) % 16 == lo,
        (lo + hi * 16) / 16 == hi,
{
    assert((lo + hi * 16) % 16 == lo && (lo + hi * 16) / 16 == hi) by (nonlinear_arith)
        requires
            0 <= lo < 16,
            0 <= hi < 16,
    ;
}

/// The pixels of a chunk in the order of a curve.
pub open spec fn curve_pixels(pixels: Seq<u8>, coords: Seq<RelativeCoord>) -> Seq<u8> {
    Seq::new(coords.len(), |i: int| pixels[cell(coords[i].0 as int, coords[i].1 as int)])
}

/// The pixels, in row-major order, of a chunk whose pixels in the order of a curve are the
/// sequence `d`; pixels past its end are zero.
pub open spec fn uncurve_pixels(d: Seq<u8>, indices: Seq<usize>) -> Seq<u8> {
    Seq::new(
        CHUNK_PIXELS as nat,
        |c: int| if indices[c] < d.len() { d[indices[c] as int] } else { 0u8 },
    )
}

proof fn lemma_pixel_is_nibble(data: Seq<u8>, x: int, y: int)
    requires
        0 <= y * 32 + x / 2 < data.len(),
    ensures
        nibble_value(pixel(data, x, y)) == pixel(data, x, y),
{
    let b = data[y * 32 + x / 2];
    assert(nibble_value(nibble_value(b)) == nibble_value(b)) by (nonlinear_arith)
        requires
            0 <= b < 256,
    ;
    assert(((((b % 16) * 16) as u8) / 16 * 16) as u8 == ((b % 16) * 16) as u8) by (nonlinear_arith)
        requires
            0 <= b < 256,
    ;
}

impl Chunk {
    pub closed spec fn wf(&self) -> bool {
        &&& self.data@.len() == CHUNK_BYTES
        &&& (self.update matches ChunkUpdate::Coords(v) ==> forall|i: int|
            0 <= i < v@.len() ==> (#[trigger] v@[i]).in_chunk())
    }

    /// The chunk's pixels in row-major order; each is a multiple of sixteen.
    pub closed spec fn pixels(&self) -> Seq<u8> {
        pixels_of(self.data@)
    }

    pub proof fn lemma_pixels_len(&self)
        ensures
            self.pixels().len() == CHUNK_PIXELS,
    {
    }

    /// When (in milliseconds) the chunk regenerates next, if it is to.
    pub closed spec fn regen_at(&self) -> Option<u64> {
        self.next_regen
    }

    /// What happened to the chunk during the current tick.
    pub closed spec fn pending(&self) -> ChunkUpdate {
        self.update
    }

    /// The stored bytes.
    pub closed spec fn bytes(&self) -> Seq<u8> {
        self.data@
    }

    /// A chunk whose pixels are all zero.
    pub fn zero() -> (r: Self)
        ensures
            r.wf(),
            r.pixels() == Seq::new(CHUNK_PIXELS as nat, |_i: int| 0u8),
            r.regen_at().is_none(),
            r.pending() is Unchanged,
    {
        let r = Chunk {
            data: vec![0u8; CHUNK_BYTES],
            next_regen: None,
            update: ChunkUpdate::Unchanged,
        };
        assert(r.pixels() =~= Seq::new(CHUNK_PIXELS as nat, |_i: int| 0u8));
        r
    }

    /// The stored bytes, two pixels to a byte.
    pub fn raw_data(&self) -> (r: &Vec<u8>)
        ensures
            r@ == self.bytes(),
    {
        &self.data
    }

    /// The pixel at a coordinate, taken modulo the chunk's size.
    pub fn at(&self, coord: Coord) -> (r: u8)
        requires
            self.wf(),
        ensures
            r == self.pixels()[cell((coord.0 % 64) as int, (coord.1 % 64) as int)],
            nibble_value(r) == r,
    {
        let x = coord.0 % CHUNK_SIZE;
        let y = coord.1 % CHUNK_SIZE;
        let b = self.data[y * 32 + x / 2];
        proof {
            lemma_pixel_is_nibble(self.data@, x as int, y as int);
        }
        if x % 2 == 0 {
            b / 16 * 16
        } else {
            (b % 16) * 16
        }
    }

    /// Sets the pixel at a coordinate, taken modulo the chunk's size, to the high nibble of a value.
    pub fn set(&mut self, coord: Coord, value: u8)
        requires
            old(self).wf(),
        ensures
            final(self).wf(),
            final(self).pixels() == old(self).pixels().update(
                cell((coord.0 % 64) as int, (coord.1 % 64) as int),
                nibble_value(value),
            ),
            final(self).regen_at() == old(self).regen_at(),
            final(self).pending() == old(self).pending(),
    {
        let x = coord.0 % CHUNK_SIZE;
        let y = coord.1 % CHUNK_SIZE;
        let idx = y * 32 + x / 2;
        let b = self.data[idx];
        let nb = if x % 2 == 0 {
            b % 16 + value / 16 * 16
        } else {
            b / 16 * 16 + value / 16
        };
        let ghost old_data = self.data@;
        self.data.set(idx, nb);
        proof {
            lemma_nibbles((b % 16) as int, (value / 16) as int);
            lemma_nibbles((value / 16) as int, (b / 16) as int);
            let target = cell(x as int, y as int);
            assert forall|i: int| 0 <= i < CHUNK_PIXELS implies #[trigger] pixels_of(self.data@)[i]
                == old(self).pixels().update(target, nibble_value(value))[i] by {
                let xi = i % 64;
                let yi = i / 64;
                if yi * 32 + xi / 2 != idx {
                    assert(pixel(self.data@, xi, yi) == pixel(old_data, xi, yi));
                } else {
                    assert(yi == y && xi / 2 == x / 2);
                    if i == target {
                        assert(xi == x);
                    } else {
                        assert(xi % 2 != x % 2);
                    }
                }
            }
            assert(pixels_of(self.data@) =~= old(self).pixels().update(target, nibble_value(value)));
        }
    }
}


impl Chunk {
    /// Encodes the chunk: run-length encoding of its pixels in the order of the curve.
    pub fn to_bytes(&self, table: &HilbertTable) -> (r: Vec<u8>)
        requires
            self.wf(),
            table.wf(),
        ensures
            r@ == encode(curve_pixels(self.pixels(), table.coords())),
    {
        let ghost s = curve_pixels(self.pixels(), table.coords());
        let mut compressor = Compressor::new(1024);
        let mut i: usize = 0;
        while i < CHUNK_PIXELS
            invariant
                i <= CHUNK_PIXELS,
                self.wf(),
                table.wf(),
                s == curve_pixels(self.pixels(), table.coords()),
                s.len() == CHUNK_PIXELS,
                compressor@ == encode(s.take(i as int)),
            decreases CHUNK_PIXELS - i,
        {
            let c = table.coord(i);
            let b = self.at(c.into_absolute_coord());
            assert((c.0 as usize) % 64 == c.0 as usize && (c.1 as usize) % 64 == c.1 as usize);
            assert(c == table.coords()[i as int]);
            assert(s[i as int] == self.pixels()[cell(c.0 as int, c.1 as int)]);
            assert(s.take(i as int + 1).drop_last() =~= s.take(i as int));
            assert(s[i as int] == b);
            assert(s.take(i as int + 1).last() == b);
            assert(encode(s.take(i as int + 1)) == encode_step(encode(s.take(i as int)), b));
            compressor.write_byte(b);
            i += 1;
        }
        assert(s.take(CHUNK_PIXELS as int) =~= s);
        compressor.into_vec()
    }

    /// Decodes bytes made by `to_bytes`: the decoded pixels in the order of the curve, pixels
    /// past their end left zero and decoded pixels past the chunk's end ignored.
    pub fn from_bytes(bytes: &[u8], table: &HilbertTable) -> (r: Self)
        requires
            table.wf(),
        ensures
            r.wf(),
            r.pixels() == uncurve_pixels(decode(bytes@), table.indices()),
            r.regen_at().is_none(),
            r.pending() is Unchanged,
    {
        let ghost d = decode(bytes@);
        let mut chunk = Self::zero();
        let mut dec = Decompressor::new(bytes);
        let mut i: usize = 0;
        let mut done = false;
        while i < CHUNK_PIXELS && !done
            invariant
                i <= CHUNK_PIXELS,
                table.wf(),
                chunk.wf(),
                chunk.regen_at().is_none(),
                chunk.pending() is Unchanged,
                dec.wf(),
                d == decode(bytes@),
                dec.remaining() == d.skip(i as int),
                i <= d.len(),
                done ==> d.len() == i,
                chunk.pixels() == Seq::new(
                    CHUNK_PIXELS as nat,
                    |c: int|
                        if table.indices()[c] < i {
                            d[table.indices()[c] as int]
                        } else {
                            0u8
                        },
                ),
            decreases CHUNK_PIXELS - i + if done { 0int } else { 1int },
        {
            let ghost rem = dec.remaining();
            match dec.next() {
                Some(b) => {
                    assert(rem.len() > 0);
                    assert(d.skip(i as int).len() == d.len() - i);
                    let c = table.coord(i);
                    let ghost before = chunk.pixels();
                    chunk.set(c.into_absolute_coord(), b);
                    proof {
                        let target = cell(c.0 as int, c.1 as int);
                        assert((c.0 as usize) % 64 == c.0 as usize && (c.1 as usize) % 64 == c.1 as usize);
                        assert(i < d.len());
                        assert(b == d[i as int]);
                        assert(b % 16 == 0) by {
                            lemma_decoded_is_nibble(bytes@, i as int);
                        }
                        assert(nibble_value(b) == b);
                        assert(table.indices()[target] == i);
                        assert(d.skip(i as int).skip(1) =~= d.skip(i as int + 1));
                        assert(chunk.pixels() =~= Seq::new(
                            CHUNK_PIXELS as nat,
                            |k: int|
                                if table.indices()[k] < i + 1 {
                                    d[table.indices()[k] as int]
                                } else {
                                    0u8
                                },
                        ));
                    }
                    i += 1;
                },
                None => {
                    done = true;
                },
            }
        }
        assert(chunk.pixels() =~= uncurve_pixels(d, table.indices()));
        chunk
    }

    /// Encoding a chunk and decoding the bytes gives back the same pixels.
    pub proof fn lemma_bytes_round_trip(&self, table: &HilbertTable)
        requires
            self.wf(),
            table.wf(),
        ensures
            uncurve_pixels(
                decode(encode(curve_pixels(self.pixels(), table.coords()))),
                table.indices(),
            ) == self.pixels(),
    {
        let s = curve_pixels(self.pixels(), table.coords());
        lemma_decode_encode(s);
        assert forall|c: int| 0 <= c < CHUNK_PIXELS implies #[trigger] uncurve_pixels(
            nibbles(s),
            table.indices(),
        )[c] == self.pixels()[c] by {
            let i = table.indices()[c] as int;
            lemma_pixel_is_nibble(self.data@, c % 64, c / 64);
            assert(nibbles(s)[i] == nibble_value(s[i]));
        }
        assert(uncurve_pixels(nibbles(s), table.indices()) =~= self.pixels());
    }
}

proof fn lemma_decoded_is_nibble(bytes: Seq<u8>, i: int)
    requires
        0 <= i < decode(bytes).len(),
    ensures
        decode(bytes)[i] % 16 == 0,
    decreases bytes.len(),
{
    if bytes.len() > 0 {
        let r = crate::compress::run(bytes[0]);
        assert(nibble_value(bytes[0]) % 16 == 0) by (nonlinear_arith)
            requires
                0 <= bytes[0] < 256,
        ;
        if i >= r.len() {
            lemma_decoded_is_nibble(bytes.skip(1), i - r.len());
        }
    }
}


/// Shortest delay before a modified chunk regenerates, in milliseconds.
pub const REGEN_DELAY_MIN: u64 = 900_000;

/// Bound (exclusive) on the delay before a modified chunk regenerates, in milliseconds.
pub const REGEN_DELAY_MAX: u64 = 1_500_000;

/// Relies on rand's `Rng::gen_range` on `thread_rng()`: a value in the half-open range.
#[verifier::external_body]
fn random_regen_delay() -> (r: u64)
    ensures
        REGEN_DELAY_MIN <= r < REGEN_DELAY_MAX,
{
    rand::Rng::gen_range(&mut rand::thread_rng(), REGEN_DELAY_MIN..REGEN_DELAY_MAX)
}

/// The original height of each terrain pixel.
pub trait Generator {
    spec fn height(&self, x: int, y: int) -> u8;

    fn generate(&self, x: usize, y: usize) -> (r: u8)
        ensures
            r == self.height(x as int, y as int),
    ;
}

/// A flat terrain at the lowest height. For placeholder purposes, or where no generator is
/// required.
pub struct ZeroGenerator;

impl Generator for ZeroGenerator {
    open spec fn height(&self, x: int, y: int) -> u8 {
        0
    }

    fn generate(&self, x: usize, y: usize) -> (r: u8) {
        0
    }
}

/// A pixel by its position in column-major order, the order in which edits are sent.
pub open spec fn lex(i: int) -> RelativeCoord {
    RelativeCoord((i / 64) as u8, (i % 64) as u8)
}

/// The distinct pixels of a list, ordered by column and then row.
pub open spec fn sorted_unique(coords: Seq<RelativeCoord>) -> Seq<RelativeCoord> {
    Seq::new(CHUNK_PIXELS as nat, |i: int| lex(i)).filter(|c: RelativeCoord| coords.contains(c))
}

/// The two little-endian bytes of each packed edit, taking each pixel's current value.
pub open spec fn mod_bytes(list: Seq<RelativeCoord>, pixels: Seq<u8>) -> Seq<u8>
    decreases list.len(),
{
    if list.len() == 0 {
        Seq::empty()
    } else {
        let c = list.last();
        let d = Mod::pack(c, pixels[cell(c.0 as int, c.1 as int)]);
        mod_bytes(list.drop_last(), pixels) + seq![(d % 256) as u8, (d / 256) as u8]
    }
}

/// What a tick's modifications become once converted for sending: the packed edits of the
/// distinct modified pixels, or the whole chunk where those would take too many bytes.
pub open spec fn mods_calculated(before: ChunkUpdate, pixels: Seq<u8>, after: ChunkUpdate) -> bool {
    match before {
        ChunkUpdate::Coords(w) => if sorted_unique(w@).len() * 2 < MAX_MOD_BYTES {
            (after matches ChunkUpdate::Mods(m) && m@ == mod_bytes(sorted_unique(w@), pixels))
        } else {
            after is Complete
        },
        ChunkUpdate::Unchanged => after is Unchanged,
        _ => after is Complete,
    }
}

/// Largest size, in bytes, of the packed edits of a chunk; beyond it the whole chunk is sent.
pub const MAX_MOD_BYTES: usize = 1600;

/// A regeneration time set a standard delay after `now` (saturating at the largest time).
pub open spec fn scheduled_after(r: Option<u64>, now: u64) -> bool {
    match r {
        Some(t) => (now + REGEN_DELAY_MIN <= t || t == u64::MAX) && t < now + REGEN_DELAY_MAX,
        None => false,
    }
}

/// The pixels that a target height draws a pixel to: one stratum closer.
pub open spec fn step_toward(height: u8, target: u8) -> u8 {
    if target < height {
        (height - 16) as u8
    } else if target > height {
        (height + 16) as u8
    } else {
        height
    }
}

/// Edit `k` of a stream of packed edits: the pixel and its new value.
pub open spec fn edit_at(bytes: Seq<u8>, k: int) -> (RelativeCoord, u8) {
    let d = bytes[2 * k] + 256 * bytes[2 * k + 1];
    (RelativeCoord((d / 1024) as u8, ((d / 16) % 64) as u8), ((d % 16) * 16) as u8)
}

/// The pixels after the first `k` edits of a stream of packed edits.
pub open spec fn apply_edits(pixels: Seq<u8>, bytes: Seq<u8>, k: int) -> Seq<u8>
    decreases k,
{
    if k <= 0 {
        pixels
    } else {
        let (c, v) = edit_at(bytes, k - 1);
        apply_edits(pixels, bytes, k - 1).update(cell(c.0 as int, c.1 as int), v)
    }
}

impl Chunk {
    /// Generates a chunk from a generator's heights.
    pub fn new<G: Generator>(chunk_id: ChunkId, generator: &G) -> (r: Box<Self>)
        requires
            chunk_id.valid(),
        ensures
            r.wf(),
            forall|x: int, y: int|
                0 <= x < 64 && 0 <= y < 64 ==> #[trigger] r.pixels()[cell(x, y)] == nibble_value(
                    generator.height(x + chunk_id.0 * 64, y + chunk_id.1 * 64),
                ),
            r.regen_at().is_none(),
            r.pending() is Unchanged,
    {
        let mut chunk = Self::zero();
        let coord = chunk_id.as_coord();
        let x_offset = coord.0;
        let y_offset = coord.1;
        let mut y: usize = 0;
        while y < CHUNK_SIZE
            invariant
                y <= CHUNK_SIZE,
                x_offset == chunk_id.0 * 64,
                y_offset == chunk_id.1 * 64,
                chunk_id.valid(),
                chunk.wf(),
                chunk.regen_at().is_none(),
                chunk.pending() is Unchanged,
                forall|xx: int, yy: int|
                    0 <= xx < 64 && 0 <= yy < y ==> #[trigger] chunk.pixels()[cell(xx, yy)]
                        == nibble_value(generator.height(xx + x_offset, yy + y_offset)),
            decreases CHUNK_SIZE - y,
        {
            let mut x: usize = 0;
            while x < CHUNK_SIZE
                invariant
                    x <= CHUNK_SIZE,
                    y < CHUNK_SIZE,
                    x_offset == chunk_id.0 * 64,
                    y_offset == chunk_id.1 * 64,
                    chunk_id.valid(),
                    chunk.wf(),
                    chunk.regen_at().is_none(),
                    chunk.pending() is Unchanged,
                    forall|xx: int, yy: int|
                        0 <= xx < 64 && 0 <= yy < y ==> #[trigger] chunk.pixels()[cell(xx, yy)]
                            == nibble_value(generator.height(xx + x_offset, yy + y_offset)),
                    forall|xx: int|
                        0 <= xx < x ==> #[trigger] chunk.pixels()[cell(xx, y as int)]
                            == nibble_value(generator.height(xx + x_offset, y + y_offset)),
                decreases CHUNK_SIZE - x,
            {
                let h = generator.generate(x + x_offset, y + y_offset);
                chunk.set(Coord(x, y), h);
                proof {
                    assert forall|xx: int, yy: int|
                        0 <= xx < 64 && 0 <= yy < y implies #[trigger] cell(xx, yy) != cell(
                        x as int,
                        y as int,
                    ) by {}
                    assert forall|xx: int| 0 <= xx < x implies #[trigger] cell(xx, y as int)
                        != cell(x as int, y as int) by {}
                }
                x += 1;
            }
            y += 1;
        }
        Box::new(chunk)
    }

    /// When (in milliseconds) the chunk regenerates next, if it is to.
    pub fn regen_at_exec(&self) -> (r: Option<u64>)
        ensures
            r == self.regen_at(),
    {
        self.next_regen
    }

    /// Replaces the record of what happened to the chunk during the tick.
    pub fn set_update(&mut self, update: ChunkUpdate)
        requires
            old(self).wf(),
            update matches ChunkUpdate::Coords(v) ==> forall|i: int|
                0 <= i < v@.len() ==> (#[trigger] v@[i]).in_chunk(),
        ensures
            final(self).wf(),
            final(self).pending() == update,
            final(self).pixels() == old(self).pixels(),
            final(self).regen_at() == old(self).regen_at(),
    {
        self.update = update;
    }

    /// Marks the chunk to regenerate after a standard delay, unless it already is.
    pub fn mark_for_regenerate(&mut self, now: u64)
        ensures
            final(self).pixels() == old(self).pixels(),
            final(self).pending() == old(self).pending(),
            final(self).wf() == old(self).wf(),
            old(self).regen_at().is_some() ==> final(self).regen_at() == old(self).regen_at(),
            old(self).regen_at().is_none() ==> scheduled_after(final(self).regen_at(), now),
    {
        if self.next_regen.is_none() {
            self.next_regen = Some(now.saturating_add(random_regen_delay()));
        }
    }

    /// Sets a pixel and records it among the tick's modifications.
    pub fn set_capture(&mut self, coord: Coord, value: u8, now: u64)
        requires
            old(self).wf(),
            !(old(self).pending() is Mods),
        ensures
            final(self).wf(),
            final(self).pixels() == old(self).pixels().update(
                cell((coord.0 % 64) as int, (coord.1 % 64) as int),
                nibble_value(value),
            ),
            old(self).regen_at().is_some() ==> final(self).regen_at() == old(self).regen_at(),
            final(self).regen_at().is_some(),
            ({
                let rel = RelativeCoord((coord.0 % 64) as u8, (coord.1 % 64) as u8);
                match old(self).pending() {
                    ChunkUpdate::Unchanged => (final(self).pending() matches ChunkUpdate::Coords(v)
                        && v@ == seq![rel]),
                    ChunkUpdate::Coords(w) => (final(self).pending() matches ChunkUpdate::Coords(v)
                        && v@ == w@.push(rel)),
                    _ => final(self).pending() is Complete,
                }
            }),
    {
        self.set(coord, value);
        self.mark_for_regenerate(now);
        let rel = RelativeCoord::from_coord(coord);
        let mut u = ChunkUpdate::Unchanged;
        core::mem::swap(&mut self.update, &mut u);
        self.update = match u {
            ChunkUpdate::Unchanged => ChunkUpdate::Coords(vec![rel]),
            ChunkUpdate::Coords(mut coords) => {
                coords.push(rel);
                ChunkUpdate::Coords(coords)
            },
            _ => ChunkUpdate::Complete,
        };
    }
}


impl Chunk {
    /// The distinct modified pixels of a list, ordered by column and then row.
    fn sort_dedup(coords: &Vec<RelativeCoord>) -> (r: Vec<RelativeCoord>)
        requires
            forall|i: int| 0 <= i < coords@.len() ==> (#[trigger] coords@[i]).in_chunk(),
        ensures
            r@ == sorted_unique(coords@),
            r@.len() <= CHUNK_PIXELS,
            forall|i: int| 0 <= i < r@.len() ==> (#[trigger] r@[i]).in_chunk(),
    {
        let mut mask: Vec<bool> = vec![false; CHUNK_PIXELS];
        let mut k: usize = 0;
        while k < coords.len()
            invariant
                k <= coords@.len(),
                mask@.len() == CHUNK_PIXELS,
                forall|i: int| 0 <= i < coords@.len() ==> (#[trigger] coords@[i]).in_chunk(),
                forall|i: int|
                    0 <= i < CHUNK_PIXELS ==> #[trigger] mask@[i] == coords@.take(k as int).contains(
                        lex(i),
                    ),
            decreases coords@.len() - k,
        {
            let c = coords[k];
            let idx = c.0 as usize * 64 + c.1 as usize;
            mask.set(idx, true);
            proof {
                assert forall|i: int| 0 <= i < CHUNK_PIXELS implies #[trigger] mask@[i]
                    == coords@.take(k as int + 1).contains(lex(i)) by {
                    assert(coords@.take(k as int + 1) =~= coords@.take(k as int).push(c));
                    if i == idx {
                        assert(lex(i) == c);
                        assert(coords@.take(k as int + 1)[k as int] == c);
                    } else {
                        assert(lex(i) != c);
                    }
                }
            }
            k += 1;
        }
        assert(coords@.take(coords@.len() as int) =~= coords@);
        let ghost all = Seq::new(CHUNK_PIXELS as nat, |i: int| lex(i));
        let ghost pred = |c: RelativeCoord| coords@.contains(c);
        let mut r: Vec<RelativeCoord> = Vec::new();
        let mut i: usize = 0;
        while i < CHUNK_PIXELS
            invariant
                i <= CHUNK_PIXELS,
                mask@.len() == CHUNK_PIXELS,
                all == Seq::new(CHUNK_PIXELS as nat, |i: int| lex(i)),
                pred == (|c: RelativeCoord| coords@.contains(c)),
                forall|j: int| 0 <= j < CHUNK_PIXELS ==> #[trigger] mask@[j] == coords@.contains(lex(j)),
                r@ == all.take(i as int).filter(pred),
                r@.len() <= i,
                forall|j: int| 0 <= j < r@.len() ==> (#[trigger] r@[j]).in_chunk(),
            decreases CHUNK_PIXELS - i,
        {
            proof {
                assert(all.take(i as int + 1) =~= all.take(i as int).push(lex(i as int)));
                all.take(i as int).lemma_filter_push(lex(i as int), pred);
            }
            if mask[i] {
                r.push(RelativeCoord((i / 64) as u8, (i % 64) as u8));
            }
            i += 1;
        }
        assert(all.take(CHUNK_PIXELS as int) =~= all);
        r
    }

    /// Packs the given pixels' current values as two-byte edits.
    #[verifier::rlimit(50)]
    fn pack_mods(&self, list: &Vec<RelativeCoord>) -> (r: Vec<u8>)
        requires
            self.wf(),
            list@.len() <= CHUNK_PIXELS,
            forall|i: int| 0 <= i < list@.len() ==> (#[trigger] list@[i]).in_chunk(),
        ensures
            r@ == mod_bytes(list@, self.pixels()),
    {
        let mut r: Vec<u8> = Vec::new();
        let mut k: usize = 0;
        while k < list.len()
            invariant
                self.wf(),
                k <= list@.len(),
                forall|i: int| 0 <= i < list@.len() ==> (#[trigger] list@[i]).in_chunk(),
                r@ == mod_bytes(list@.take(k as int), self.pixels()),
            decreases list@.len() - k,
        {
            let c = list[k];
            let m = Mod::new(c, self.at(c.into_absolute_coord()));
            let b = m.to_bytes();
            r.push(b[0]);
            r.push(b[1]);
            proof {
                assert(list@.take(k as int + 1).drop_last() =~= list@.take(k as int));
                assert((c.0 as usize) % 64 == c.0 as usize && (c.1 as usize) % 64 == c.1 as usize);
                assert(r@ =~= mod_bytes(list@.take(k as int), self.pixels()) + seq![b[0], b[1]]);
            }
            k += 1;
        }
        assert(list@.take(list@.len() as int) =~= list@);
        r
    }

    /// Converts the tick's modified pixels into packed edits, or into sending the whole chunk
    /// where the edits would take `MAX_MOD_BYTES` or more.
    pub fn calculate_mods(&mut self)
        requires
            old(self).wf(),
            !(old(self).pending() is Mods),
        ensures
            final(self).wf(),
            final(self).pixels() == old(self).pixels(),
            final(self).regen_at() == old(self).regen_at(),
            mods_calculated(old(self).pending(), old(self).pixels(), final(self).pending()),
    {
        let mut u = ChunkUpdate::Unchanged;
        core::mem::swap(&mut self.update, &mut u);
        self.update = match u {
            ChunkUpdate::Coords(coords) => {
                let list = Self::sort_dedup(&coords);
                if list.len() * 2 < MAX_MOD_BYTES {
                    ChunkUpdate::Mods(self.pack_mods(&list))
                } else {
                    ChunkUpdate::Complete
                }
            },
            ChunkUpdate::Unchanged => ChunkUpdate::Unchanged,
            _ => ChunkUpdate::Complete,
        };
    }

    /// Serializes the chunk for a client: its packed edits where asked for and present,
    /// otherwise the whole encoded chunk.
    pub fn to_serialized_chunk(&self, should_update: bool, table: &HilbertTable) -> (r:
        SerializedChunk)
        requires
            self.wf(),
            table.wf(),
        ensures
            should_update && self.pending() is Mods ==> r.is_update && (self.pending() matches ChunkUpdate::Mods(m)
                && r.bytes@ == m@),
            !(should_update && self.pending() is Mods) ==> !r.is_update && r.bytes@ == encode(
                curve_pixels(self.pixels(), table.coords()),
            ),
    {
        if should_update {
            match &self.update {
                ChunkUpdate::Mods(mods) => {
                    return SerializedChunk { is_update: true, bytes: mods.clone() };
                },
                _ => {},
            }
        }
        SerializedChunk { is_update: false, bytes: self.to_bytes(table) }
    }
}


impl Chunk {
    /// Applies a chunk received from the server: packed edits are applied in order and their
    /// pixels recorded; a whole chunk replaces this one.
    pub fn apply_serialized_chunk(&mut self, serialized: &SerializedChunk, table: &HilbertTable)
        requires
            old(self).wf(),
            table.wf(),
        ensures
            final(self).wf(),
            serialized.is_update ==> final(self).pixels() == apply_edits(
                old(self).pixels(),
                serialized.bytes@,
                serialized.bytes@.len() as int / 2,
            ) && final(self).regen_at() == old(self).regen_at() && (final(self).pending() matches ChunkUpdate::Coords(v)
                && v@ == Seq::new(
                (serialized.bytes@.len() / 2) as nat,
                |k: int| edit_at(serialized.bytes@, k).0,
            )),
            !serialized.is_update ==> final(self).pixels() == uncurve_pixels(
                decode(serialized.bytes@),
                table.indices(),
            ) && final(self).regen_at().is_none() && final(self).pending() is Complete,
    {
        if serialized.is_update {
            let bytes = &serialized.bytes;
            let len = bytes.len();
            let n = len / 2;
            let mut coords: Vec<RelativeCoord> = Vec::new();
            let mut k: usize = 0;
            let mut u = ChunkUpdate::Unchanged;
            core::mem::swap(&mut self.update, &mut u);
            while k < n
                invariant
                    k <= n,
                    n == bytes@.len() / 2,
                    len == bytes@.len(),
                    self.wf(),
                    self.regen_at() == old(self).regen_at(),
                    self.pending() is Unchanged,
                    self.pixels() == apply_edits(old(self).pixels(), bytes@, k as int),
                    coords@ == Seq::new(k as nat, |j: int| edit_at(bytes@, j).0),
                    forall|j: int| 0 <= j < coords@.len() ==> (#[trigger] coords@[j]).in_chunk(),
                decreases n - k,
            {
                assert(2 * k + 1 < bytes@.len());
                let i0: usize = 2 * k;
                let i1: usize = i0 + 1;
                let m = Mod::from_bytes([bytes[i0], bytes[i1]]);
                let (coord, value) = m.to_coord_and_value();
                proof {
                    assert(((value as int) / 16) * 16 == value as int) by (nonlinear_arith)
                        requires
                            value as int == (m.data % 16) * 16,
                    ;
                    assert((coord.0 as usize) % 64 == coord.0 as usize && (coord.1 as usize) % 64
                        == coord.1 as usize);
                }
                self.set(coord.into_absolute_coord(), value);
                coords.push(coord);
                proof {
                    assert(coords@ =~= Seq::new((k + 1) as nat, |j: int| edit_at(bytes@, j).0));
                }
                k += 1;
            }
            self.update = ChunkUpdate::Coords(coords);
        } else {
            *self = Self::from_bytes(serialized.bytes.as_slice(), table);
            self.update = ChunkUpdate::Complete;
        }
    }

    /// Brings each pixel one stratum closer to the generator's height, and schedules another
    /// regeneration if some pixel still differs from it.
    pub fn regenerate<G: Generator>(&mut self, chunk_id: ChunkId, generator: &G, now: u64)
        requires
            old(self).wf(),
            chunk_id.valid(),
        ensures
            final(self).wf(),
            final(self).pending() == old(self).pending(),
            forall|x: int, y: int|
                0 <= x < 64 && 0 <= y < 64 ==> #[trigger] final(self).pixels()[cell(x, y)]
                    == step_toward(
                    old(self).pixels()[cell(x, y)],
                    nibble_value(generator.height(x + chunk_id.0 * 64, y + chunk_id.1 * 64)),
                ),
            (exists|x: int, y: int|
                0 <= x < 64 && 0 <= y < 64 && #[trigger] final(self).pixels()[cell(x, y)]
                    != nibble_value(generator.height(x + chunk_id.0 * 64, y + chunk_id.1 * 64)))
                ==> scheduled_after(final(self).regen_at(), now),
            (forall|x: int, y: int|
                0 <= x < 64 && 0 <= y < 64 ==> #[trigger] final(self).pixels()[cell(x, y)]
                    == nibble_value(generator.height(x + chunk_id.0 * 64, y + chunk_id.1 * 64)))
                ==> final(self).regen_at().is_none(),
    {
        let coord = chunk_id.as_coord();
        let x_offset = coord.0;
        let y_offset = coord.1;
        let ghost old_pixels = self.pixels();
        let ghost target = |x: int, y: int|
            nibble_value(generator.height(x + chunk_id.0 * 64, y + chunk_id.1 * 64));
        let mut incomplete = false;
        let mut y: usize = 0;
        while y < CHUNK_SIZE
            invariant
                y <= CHUNK_SIZE,
                x_offset == chunk_id.0 * 64,
                y_offset == chunk_id.1 * 64,
                chunk_id.valid(),
                self.wf(),
                self.pending() == old(self).pending(),
                self.regen_at() == old(self).regen_at(),
                old_pixels == old(self).pixels(),
                target == (|x: int, y: int|
                    nibble_value(generator.height(x + chunk_id.0 * 64, y + chunk_id.1 * 64))),
                self.pixels().len() == CHUNK_PIXELS,
                forall|xx: int, yy: int|
                    0 <= xx < 64 && 0 <= yy < 64 && yy >= y ==> #[trigger] self.pixels()[cell(xx, yy)]
                        == old_pixels[cell(xx, yy)],
                forall|xx: int, yy: int|
                    0 <= xx < 64 && 0 <= yy < y ==> #[trigger] self.pixels()[cell(xx, yy)]
                        == step_toward(old_pixels[cell(xx, yy)], target(xx, yy)),
                incomplete <==> exists|xx: int, yy: int|
                    0 <= xx < 64 && 0 <= yy < y && #[trigger] self.pixels()[cell(xx, yy)] != target(
                        xx,
                        yy,
                    ),
            decreases CHUNK_SIZE - y,
        {
            let mut x: usize = 0;
            while x < CHUNK_SIZE
                invariant
                    x <= CHUNK_SIZE,
                    y < CHUNK_SIZE,
                    x_offset == chunk_id.0 * 64,
                    y_offset == chunk_id.1 * 64,
                    chunk_id.valid(),
                    self.wf(),
                    self.pending() == old(self).pending(),
                    self.regen_at() == old(self).regen_at(),
                    old_pixels == old(self).pixels(),
                    target == (|x: int, y: int|
                        nibble_value(generator.height(x + chunk_id.0 * 64, y + chunk_id.1 * 64))),
                    self.pixels().len() == CHUNK_PIXELS,
                    forall|xx: int, yy: int|
                        0 <= xx < 64 && 0 <= yy < 64 && (yy > y || (yy == y && xx >= x))
                            ==> #[trigger] self.pixels()[cell(xx, yy)] == old_pixels[cell(xx, yy)],
                    forall|xx: int, yy: int|
                        0 <= xx < 64 && 0 <= yy < 64 && (yy < y || (yy == y && xx < x))
                            ==> #[trigger] self.pixels()[cell(xx, yy)] == step_toward(
                            old_pixels[cell(xx, yy)],
                            target(xx, yy),
                        ),
                    incomplete <==> exists|xx: int, yy: int|
                        0 <= xx < 64 && 0 <= yy < 64 && (yy < y || (yy == y && xx < x))
                            && #[trigger] self.pixels()[cell(xx, yy)] != target(xx, yy),
                decreases CHUNK_SIZE - x,
            {
                let c = Coord(x, y);
                let height = self.at(c);
                let original_height = generator.generate(x + x_offset, y + y_offset) / 16 * 16;
                let ghost before = self.pixels();
                assert(height == old_pixels[cell(x as int, y as int)]);
                assert(original_height == target(x as int, y as int));
                proof {
                    lemma_pixel_is_nibble(self.data@, x as int, y as int);
                }
                if original_height < height {
                    let new_height = height - 16;
                    self.set(c, new_height);
                    assert(nibble_value(new_height) == new_height) by (nonlinear_arith)
                        requires
                            new_height == height - 16,
                            (height / 16) * 16 == height,
                    ;
                    if new_height != original_height {
                        incomplete = true;
                    }
                } else if original_height > height {
                    let new_height = height + 16;
                    self.set(c, new_height);
                    assert(nibble_value(new_height) == new_height) by (nonlinear_arith)
                        requires
                            new_height == height + 16,
                            (height / 16) * 16 == height,
                    ;
                    if new_height != original_height {
                        incomplete = true;
                    }
                }
                proof {
                    let t = cell(x as int, y as int);
                    assert forall|xx: int, yy: int|
                        0 <= xx < 64 && 0 <= yy < 64 && (xx != x || yy != y) implies #[trigger] self.pixels()[cell(xx, yy)]
                        == before[cell(xx, yy)] by {
                        assert(cell(xx, yy) != t);
                    }
                    if incomplete {
                        if self.pixels()[t] != target(x as int, y as int) {
                            assert(self.pixels()[cell(x as int, y as int)] != target(x as int, y as int));
                        } else {
                            let (wx, wy) = choose|xx: int, yy: int|
                                0 <= xx < 64 && 0 <= yy < 64 && (yy < y || (yy == y && xx < x))
                                    && #[trigger] before[cell(xx, yy)] != target(xx, yy);
                            assert(self.pixels()[cell(wx, wy)] != target(wx, wy));
                        }
                    }
                }
                x += 1;
            }
            y += 1;
        }
        self.next_regen = None;
        if incomplete {
            self.mark_for_regenerate(now);
        }
    }
}


/// Side of the mask of pixels touched by modifications: one more than a chunk's, since each
/// modified pixel also touches its neighbours at `+x` and `+y`.
pub const MASK_SIZE: usize = 65;

/// A rectangle of pixels, by its lowest and highest corners (both included).
pub type Rect = (RelativeCoord, RelativeCoord);

pub open spec fn rect_contains(r: Rect, a: int, b: int) -> bool {
    r.0.0 <= a <= r.1.0 && r.0.1 <= b <= r.1.1
}

/// Whether two rectangles share a pixel.
pub open spec fn rects_overlap(p: Rect, q: Rect) -> bool {
    p.0.0 <= q.1.0 && q.0.0 <= p.1.0 && p.0.1 <= q.1.1 && q.0.1 <= p.1.1
}

/// The rectangle over the whole mask of touched pixels.
pub open spec fn full_rect() -> Rect {
    (RelativeCoord(0, 0), RelativeCoord(64, 64))
}

/// Whether a list of rectangles covers a pixel.
pub open spec fn covered(rects: Seq<Rect>, a: int, b: int) -> bool {
    exists|i: int| 0 <= i < rects.len() && rect_contains(#[trigger] rects[i], a, b)
}

/// Whether a pixel is touched by a modification of a pixel: it or the pixel at `-x`, `-y` or
/// both was modified.
pub open spec fn touches(c: RelativeCoord, a: int, b: int) -> bool {
    c.0 <= a <= c.0 + 1 && c.1 <= b <= c.1 + 1
}

/// Whether a pixel is touched by any of the first `k` modifications of a list.
pub open spec fn touched(coords: Seq<RelativeCoord>, k: int, a: int, b: int) -> bool {
    exists|i: int| 0 <= i < k && touches(#[trigger] coords[i], a, b)
}

pub open spec fn midx(a: int, b: int) -> int {
    a * 65 + b
}

/// Clears the pixels `y..=y2` of column `x` of a mask.
fn clear_run(mask: &mut Vec<bool>, x: usize, y: usize, y2: usize)
    requires
        old(mask)@.len() == MASK_SIZE * MASK_SIZE,
        x < MASK_SIZE,
        y <= y2 < MASK_SIZE,
    ensures
        final(mask)@.len() == MASK_SIZE * MASK_SIZE,
        forall|a: int, b: int|
            0 <= a < 65 && 0 <= b < 65 ==> #[trigger] final(mask)@[midx(a, b)] == (old(mask)@[midx(
                a,
                b,
            )] && !(a == x && y <= b <= y2)),
{
    let mut b = y;
    while b <= y2
        invariant
            y <= b <= y2 + 1,
            y2 < MASK_SIZE,
            x < MASK_SIZE,
            mask@.len() == MASK_SIZE * MASK_SIZE,
            forall|aa: int, bb: int|
                0 <= aa < 65 && 0 <= bb < 65 ==> #[trigger] mask@[midx(aa, bb)] == (old(mask)@[midx(
                    aa,
                    bb,
                )] && !(aa == x && y <= bb < b)),
        decreases y2 + 1 - b,
    {
        mask.set(x * MASK_SIZE + b, false);
        proof {
            assert forall|aa: int, bb: int| 0 <= aa < 65 && 0 <= bb < 65 && midx(aa, bb) == midx(x as int, b as int) implies aa == x && bb == b by {}
        }
        b += 1;
    }
}

/// Whether the pixels `y..=y2` of column `x` of a mask are all set.
fn run_set(mask: &Vec<bool>, x: usize, y: usize, y2: usize) -> (r: bool)
    requires
        mask@.len() == MASK_SIZE * MASK_SIZE,
        x < MASK_SIZE,
        y <= y2 < MASK_SIZE,
    ensures
        r == forall|b: int| y <= b <= y2 ==> #[trigger] mask@[midx(x as int, b)],
{
    let mut b = y;
    while b <= y2
        invariant
            y <= b <= y2 + 1,
            y2 < MASK_SIZE,
            x < MASK_SIZE,
            mask@.len() == MASK_SIZE * MASK_SIZE,
            forall|bb: int| y <= bb < b ==> #[trigger] mask@[midx(x as int, bb)],
        decreases y2 + 1 - b,
    {
        if !mask[x * MASK_SIZE + b] {
            assert(!mask@[midx(x as int, b as int)]);
            return false;
        }
        b += 1;
    }
    true
}

/// The last row of the run of set pixels that starts at `(x, y)` in column `x`.
fn run_end(mask: &Vec<bool>, x: usize, y: usize) -> (y2: usize)
    requires
        mask@.len() == MASK_SIZE * MASK_SIZE,
        x < MASK_SIZE,
        y < MASK_SIZE,
        mask@[midx(x as int, y as int)],
    ensures
        y <= y2 < MASK_SIZE,
        forall|b: int| y <= b <= y2 ==> #[trigger] mask@[midx(x as int, b)],
        y2 + 1 == MASK_SIZE || !mask@[midx(x as int, y2 + 1)],
{
    let mut y2 = y;
    while y2 + 1 < MASK_SIZE && mask[x * MASK_SIZE + y2 + 1]
        invariant
            x < MASK_SIZE,
            y <= y2 < MASK_SIZE,
            mask@.len() == MASK_SIZE * MASK_SIZE,
            forall|b: int| y <= b <= y2 ==> #[trigger] mask@[midx(x as int, b)],
        decreases MASK_SIZE - y2,
    {
        y2 += 1;
    }
    y2
}

/// Clears the rows `y..=y2` of column `x` and of each following column in which they are all
/// set; returns the first column past those.
fn extend_run(mask: &mut Vec<bool>, x: usize, y: usize, y2: usize) -> (x2: usize)
    requires
        old(mask)@.len() == MASK_SIZE * MASK_SIZE,
        x < MASK_SIZE,
        y <= y2 < MASK_SIZE,
        forall|b: int| y <= b <= y2 ==> #[trigger] old(mask)@[midx(x as int, b)],
    ensures
        x < x2 <= MASK_SIZE,
        final(mask)@.len() == MASK_SIZE * MASK_SIZE,
        forall|a: int, b: int|
            0 <= a < 65 && 0 <= b < 65 ==> #[trigger] final(mask)@[midx(a, b)] == (old(mask)@[midx(
                a,
                b,
            )] && !(x <= a < x2 && y <= b <= y2)),
        forall|a: int, b: int| x <= a < x2 && y <= b <= y2 ==> #[trigger] old(mask)@[midx(a, b)],
        x2 < MASK_SIZE ==> exists|b: int| y <= b <= y2 && !#[trigger] old(mask)@[midx(x2 as int, b)],
{
    let ghost m0 = mask@;
    clear_run(mask, x, y, y2);
    let mut x2 = x + 1;
    while x2 < MASK_SIZE && run_set(mask, x2, y, y2)
        invariant
            x < x2 <= MASK_SIZE,
            y <= y2 < MASK_SIZE,
            m0 == old(mask)@,
            mask@.len() == MASK_SIZE * MASK_SIZE,
            m0.len() == MASK_SIZE * MASK_SIZE,
            forall|a: int, b: int|
                0 <= a < 65 && 0 <= b < 65 ==> #[trigger] mask@[midx(a, b)] == (m0[midx(a, b)]
                    && !(x <= a < x2 && y <= b <= y2)),
            forall|a: int, b: int| x <= a < x2 && y <= b <= y2 ==> #[trigger] m0[midx(a, b)],
        decreases MASK_SIZE - x2,
    {
        assert forall|b: int| y <= b <= y2 implies #[trigger] m0[midx(x2 as int, b)] by {
            assert(mask@[midx(x2 as int, b)]);
        }
        clear_run(mask, x2, y, y2);
        x2 += 1;
    }
    proof {
        if x2 < MASK_SIZE {
            let b = choose|b: int| y <= b <= y2 && !#[trigger] mask@[midx(x2 as int, b)];
            assert(!m0[midx(x2 as int, b)]);
        }
    }
    x2
}

impl Chunk {
    /// The pixels touched by a list of modified pixels, as a mask.
    fn touched_mask(coords: &Vec<RelativeCoord>) -> (mask: Vec<bool>)
        requires
            forall|i: int| 0 <= i < coords@.len() ==> (#[trigger] coords@[i]).in_chunk(),
        ensures
            mask@.len() == MASK_SIZE * MASK_SIZE,
            forall|a: int, b: int|
                0 <= a < 65 && 0 <= b < 65 ==> #[trigger] mask@[midx(a, b)] == touched(
                    coords@,
                    coords@.len() as int,
                    a,
                    b,
                ),
    {
        let mut mask: Vec<bool> = vec![false; MASK_SIZE * MASK_SIZE];
        let mut k: usize = 0;
        while k < coords.len()
            invariant
                k <= coords@.len(),
                mask@.len() == MASK_SIZE * MASK_SIZE,
                forall|i: int| 0 <= i < coords@.len() ==> (#[trigger] coords@[i]).in_chunk(),
                forall|a: int, b: int|
                    0 <= a < 65 && 0 <= b < 65 ==> #[trigger] mask@[midx(a, b)] == touched(
                        coords@,
                        k as int,
                        a,
                        b,
                    ),
            decreases coords@.len() - k,
        {
            let c = coords[k];
            let x = c.0 as usize;
            let y = c.1 as usize;
            let ghost before = mask@;
            mask.set(x * MASK_SIZE + y, true);
            mask.set((x + 1) * MASK_SIZE + y, true);
            mask.set(x * MASK_SIZE + y + 1, true);
            mask.set((x + 1) * MASK_SIZE + y + 1, true);
            proof {
                assert forall|a: int, b: int|
                    0 <= a < 65 && 0 <= b < 65 implies #[trigger] mask@[midx(a, b)] == touched(
                    coords@,
                    k + 1,
                    a,
                    b,
                ) by {
                    if touches(c, a, b) {
                        assert(touches(coords@[k as int], a, b));
                    } else {
                        assert(mask@[midx(a, b)] == before[midx(a, b)]);
                        if touched(coords@, k + 1, a, b) {
                            let i = choose|i: int| 0 <= i < k + 1 && touches(#[trigger] coords@[i], a, b);
                            assert(i < k);
                        }
                    }
                }
            }
            k += 1;
        }
        mask
    }

    /// Rectangles that cover exactly the pixels touched by the tick's modifications (each
    /// modified pixel with its neighbours at `+x` and `+y`), found by greedy meshing; a single
    /// rectangle over the whole chunk where it changed as a whole.
    pub fn updated_rects(&self) -> (r: Vec<Rect>)
        requires
            self.wf(),
            self.pending() is Coords || self.pending() is Complete,
        ensures
            self.pending() is Complete ==> r@ == seq![(RelativeCoord(0, 0), RelativeCoord(64, 64))],
            self.pending() matches ChunkUpdate::Coords(v) ==> forall|a: int, b: int|
                0 <= a < 65 && 0 <= b < 65 ==> (covered(r@, a, b) <==> touched(
                    v@,
                    v@.len() as int,
                    a,
                    b,
                )),
            forall|i: int|
                0 <= i < r@.len() ==> (#[trigger] r@[i]).0.0 <= r@[i].1.0 <= 64 && r@[i].0.1
                    <= r@[i].1.1 <= 64,
            forall|i: int, j: int|
                0 <= i < j < r@.len() ==> !rects_overlap(#[trigger] r@[i], #[trigger] r@[j]),
            self.pending() matches ChunkUpdate::Coords(v) ==> (r@.len() == 0 <==> v@.len() == 0),
            self.pending() matches ChunkUpdate::Coords(v) ==> ((forall|x: u8, y: u8|
                x < 64 && y < 64 ==> #[trigger] v@.contains(RelativeCoord(x, y))) ==> r@ == seq![
                full_rect(),
            ]),
    {
        match &self.update {
            ChunkUpdate::Coords(coords) => {
                let mut mask = Self::touched_mask(coords);
                let ghost orig = mask@;
                let ghost full = forall|a: int, b: int| 0 <= a < 65 && 0 <= b < 65 ==> #[trigger] orig[midx(a, b)];
                let mut rects: Vec<Rect> = Vec::new();
                let mut x: usize = 0;
                while x < MASK_SIZE
                    invariant
                        x <= MASK_SIZE,
                        mask@.len() == MASK_SIZE * MASK_SIZE,
                        orig.len() == MASK_SIZE * MASK_SIZE,
                        forall|a: int, b: int|
                            0 <= a < 65 && 0 <= b < 65 ==> (orig[midx(a, b)] <==> (#[trigger] mask@[midx(a, b)]
                                || covered(rects@, a, b))),
                        forall|a: int, b: int|
                            0 <= a < x && 0 <= b < 65 ==> !#[trigger] mask@[midx(a, b)],
                        forall|i: int|
                            0 <= i < rects@.len() ==> (#[trigger] rects@[i]).0.0 <= rects@[i].1.0
                                <= 64 && rects@[i].0.1 <= rects@[i].1.1 <= 64,
                        forall|i: int, j: int|
                            0 <= i < j < rects@.len() ==> !rects_overlap(#[trigger] rects@[i], #[trigger] rects@[j]),
                        forall|i: int, a: int, b: int|
                            0 <= i < rects@.len() && 0 <= a < 65 && 0 <= b < 65 && #[trigger] rect_contains(rects@[i], a, b)
                                ==> !mask@[midx(a, b)],
                        full == (forall|a: int, b: int| 0 <= a < 65 && 0 <= b < 65 ==> #[trigger] orig[midx(a, b)]),
                        full ==> (x == 0 && rects@.len() == 0 && forall|a: int, b: int|
                            0 <= a < 65 && 0 <= b < 65 ==> #[trigger] mask@[midx(a, b)]) || (rects@ == seq![full_rect()]
                            && forall|a: int, b: int| 0 <= a < 65 && 0 <= b < 65 ==> !#[trigger] mask@[midx(a, b)]),
                    decreases MASK_SIZE - x,
                {
                    let mut y: usize = 0;
                    while y < MASK_SIZE
                        invariant
                            x < MASK_SIZE,
                            y <= MASK_SIZE,
                            mask@.len() == MASK_SIZE * MASK_SIZE,
                            orig.len() == MASK_SIZE * MASK_SIZE,
                            forall|a: int, b: int|
                                0 <= a < 65 && 0 <= b < 65 ==> (orig[midx(a, b)] <==> (#[trigger] mask@[midx(a, b)]
                                    || covered(rects@, a, b))),
                            forall|a: int, b: int|
                                0 <= a < x && 0 <= b < 65 ==> !#[trigger] mask@[midx(a, b)],
                            forall|b: int| 0 <= b < y ==> !#[trigger] mask@[midx(x as int, b)],
                            forall|i: int|
                                0 <= i < rects@.len() ==> (#[trigger] rects@[i]).0.0
                                    <= rects@[i].1.0 <= 64 && rects@[i].0.1 <= rects@[i].1.1 <= 64,
                            forall|i: int, j: int|
                                0 <= i < j < rects@.len() ==> !rects_overlap(#[trigger] rects@[i], #[trigger] rects@[j]),
                            forall|i: int, a: int, b: int|
                                0 <= i < rects@.len() && 0 <= a < 65 && 0 <= b < 65 && #[trigger] rect_contains(rects@[i], a, b)
                                    ==> !mask@[midx(a, b)],
                            full == (forall|a: int, b: int| 0 <= a < 65 && 0 <= b < 65 ==> #[trigger] orig[midx(a, b)]),
                            full ==> (x == 0 && y == 0 && rects@.len() == 0 && forall|a: int, b: int|
                                0 <= a < 65 && 0 <= b < 65 ==> #[trigger] mask@[midx(a, b)]) || (rects@ == seq![full_rect()]
                                && forall|a: int, b: int| 0 <= a < 65 && 0 <= b < 65 ==> !#[trigger] mask@[midx(a, b)]),
                        decreases MASK_SIZE - y,
                    {
                        if mask[x * MASK_SIZE + y] {
                            let y2 = run_end(&mask, x, y);
                            let ghost m0 = mask@;
                            let ghost r0 = rects@;
                            let x2 = extend_run(&mut mask, x, y, y2);
                            let rect = (RelativeCoord(x as u8, y as u8), RelativeCoord((x2 - 1) as u8, y2 as u8));
                            rects.push(rect);
                            proof {
                                assert forall|a: int, b: int|
                                    0 <= a < 65 && 0 <= b < 65 implies (orig[midx(a, b)] <==> (#[trigger] mask@[midx(a, b)]
                                        || covered(rects@, a, b))) by {
                                    if rect_contains(rect, a, b) {
                                        assert(rects@[rects@.len() - 1] == rect);
                                        assert(m0[midx(a, b)]);
                                        assert(covered(rects@, a, b));
                                    } else {
                                        assert(mask@[midx(a, b)] == m0[midx(a, b)]);
                                        if covered(rects@, a, b) {
                                            let i = choose|i: int| 0 <= i < rects@.len() && rect_contains(#[trigger] rects@[i], a, b);
                                            assert(i < r0.len());
                                            assert(r0[i] == rects@[i]);
                                        }
                                        if covered(r0, a, b) {
                                            let i = choose|i: int| 0 <= i < r0.len() && rect_contains(#[trigger] r0[i], a, b);
                                            assert(rects@[i] == r0[i]);
                                        }
                                    }
                                }
                            }
                            proof {
                                assert forall|b: int| 0 <= b < y2 + 1 implies !#[trigger] mask@[midx(x as int, b)] by {
                                    if b < y {
                                        assert(!m0[midx(x as int, b)]);
                                    }
                                }
                                assert forall|a: int, b: int| 0 <= a < x && 0 <= b < 65 implies !#[trigger] mask@[midx(a, b)] by {
                                    assert(!m0[midx(a, b)]);
                                }
                                assert forall|i: int, a: int, b: int|
                                    0 <= i < rects@.len() && 0 <= a < 65 && 0 <= b < 65 && #[trigger] rect_contains(rects@[i], a, b)
                                        implies !mask@[midx(a, b)] by {
                                    if i < r0.len() {
                                        assert(rects@[i] == r0[i]);
                                        assert(!m0[midx(a, b)]);
                                    }
                                }
                                assert forall|i: int, j: int|
                                    0 <= i < j < rects@.len() implies !rects_overlap(#[trigger] rects@[i], #[trigger] rects@[j]) by {
                                    if j == r0.len() {
                                        let q = r0[i];
                                        assert(rects@[i] == q);
                                        assert(rects@[j] == rect);
                                        if rects_overlap(q, rect) {
                                            let a = if q.0.0 >= x { q.0.0 as int } else { x as int };
                                            let b = if q.0.1 >= y { q.0.1 as int } else { y as int };
                                            assert(rect_contains(r0[i], a, b));
                                            assert(!m0[midx(a, b)]);
                                            assert(m0[midx(a, b)]);
                                        }
                                    } else {
                                        assert(rects@[i] == r0[i] && rects@[j] == r0[j]);
                                    }
                                }
                                if full {
                                    assert(m0[midx(x as int, y as int)]);
                                    assert(x == 0 && y == 0 && r0.len() == 0);
                                    assert(y2 == 64) by {
                                        if y2 + 1 < MASK_SIZE {
                                            assert(m0[midx(x as int, y2 + 1)]);
                                        }
                                    }
                                    assert(x2 == 65) by {
                                        if x2 < MASK_SIZE {
                                            let b = choose|b: int| y <= b <= y2 && !#[trigger] m0[midx(x2 as int, b)];
                                            assert(m0[midx(x2 as int, b)]);
                                        }
                                    }
                                    assert(rect == full_rect());
                                    assert(rects@ =~= seq![full_rect()]);
                                    assert forall|a: int, b: int| 0 <= a < 65 && 0 <= b < 65 implies !#[trigger] mask@[midx(a, b)] by {}
                                }
                            }
                            y = y2;
                        } else {
                            proof {
                                assert(!mask@[midx(x as int, y as int)]);
                            }
                        }
                        y += 1;
                    }
                    x += 1;
                }
                proof {
                    assert forall|a: int, b: int|
                        0 <= a < 65 && 0 <= b < 65 implies (covered(rects@, a, b) <==> touched(
                        coords@,
                        coords@.len() as int,
                        a,
                        b,
                    )) by {
                        assert(!mask@[midx(a, b)]);
                    }
                    let n = coords@.len() as int;
                    if n > 0 {
                        let c = coords@[0];
                        assert(touches(coords@[0], c.0 as int, c.1 as int));
                        assert(touched(coords@, n, c.0 as int, c.1 as int));
                        assert(covered(rects@, c.0 as int, c.1 as int));
                    }
                    if rects@.len() > 0 {
                        let q = rects@[0];
                        assert(rect_contains(rects@[0], q.0.0 as int, q.0.1 as int));
                        assert(covered(rects@, q.0.0 as int, q.0.1 as int));
                        assert(touched(coords@, n, q.0.0 as int, q.0.1 as int));
                    }
                    if forall|x: u8, y: u8| x < 64 && y < 64 ==> #[trigger] coords@.contains(RelativeCoord(x, y)) {
                        assert forall|a: int, b: int| 0 <= a < 65 && 0 <= b < 65 implies #[trigger] orig[midx(a, b)] by {
                            let xx: u8 = if a < 64 { a as u8 } else { 63u8 };
                            let yy: u8 = if b < 64 { b as u8 } else { 63u8 };
                            assert(coords@.contains(RelativeCoord(xx, yy)));
                            let i = choose|i: int| 0 <= i < n && coords@[i] == RelativeCoord(xx, yy);
                            assert(touches(coords@[i], a, b));
                        }
                        assert(full);
                    }
                }
                rects
            },
            _ => {
                vec![(RelativeCoord(0, 0), RelativeCoord(64, 64))]
            },
        }
    }
}

} // verus!
