use vstd::prelude::*;
use crate::altitude::{lookup_altitude, lookup_altitude_spec, reverse_lookup_altitude, reverse_lookup_altitude_spec, Altitude};
use crate::chunk::{apply_edits, cell, mods_calculated, uncurve_pixels, Chunk, CHUNK_PIXELS, ChunkUpdate, Generator, HilbertTable, SerializedChunk, ZeroGenerator};
use crate::chunk_set::{ChunkSet, NUM_CHUNKS};
use crate::compress::{decode, nibble_value};
use crate::coord::{ChunkId, Coord, SIZE};

verus! {

/// The chunk holding a pixel, by index.
pub open spec fn chunk_index_of(x: int, y: int) -> int {
    x / 64 + (y / 64) * 16
}

/// The terrain: a square of pixels holding altitudes as raw data, in chunks generated on
/// first use.
pub struct Terrain<G: Generator> {
    chunks: Vec<Option<Box<Chunk>>>,
    updated: ChunkSet,
    generator: G,
    now: u64,
}

impl Terrain<ZeroGenerator> {
    /// A terrain with a zero generator.
    pub fn new() -> (r: Self)
        ensures
            r.wf(),
            r.updated_view() == Set::<int>::empty(),
            forall|x: int, y: int| 0 <= x < SIZE && 0 <= y < SIZE ==> #[trigger] r.pixel(x, y) == 0,
    {
        Self::with_generator(ZeroGenerator)
    }
}

impl<G: Generator> Terrain<G> {
    pub closed spec fn wf(&self) -> bool {
        &&& self.chunks@.len() == NUM_CHUNKS
        &&& self.updated_set().wf()
        &&& forall|i: int| 0 <= i < NUM_CHUNKS ==> (#[trigger] self.chunks@[i] matches Some(c) ==> c.wf())
    }

    /// The chunk at each index, where it has been generated.
    pub closed spec fn slots(&self) -> Seq<Option<Box<Chunk>>> {
        self.chunks@
    }

    /// The chunks modified since the last reset, by index.
    pub open spec fn updated_view(&self) -> Set<int> {
        self.updated_set()@
    }

    /// The set of chunks modified since the last reset.
    pub closed spec fn updated_set(&self) -> ChunkSet {
        self.updated
    }

    pub closed spec fn gen(&self) -> G {
        self.generator
    }

    /// The time (in milliseconds) of the last update, from which regenerations are scheduled.
    pub closed spec fn clock(&self) -> u64 {
        self.now
    }

    /// Whether no chunk holds packed edits, as between `post_update` and `pre_update`.
    pub open spec fn no_mods(&self) -> bool {
        forall|i: int| 0 <= i < NUM_CHUNKS ==> !(#[trigger] self.slots()[i] matches Some(c) && c.pending() is Mods)
    }

    /// The raw data of a pixel: that of its chunk, or the generator's for a chunk not yet
    /// generated.
    pub open spec fn pixel(&self, x: int, y: int) -> u8 {
        match self.slots()[chunk_index_of(x, y)] {
            Some(c) => c.pixels()[cell(x % 64, y % 64)],
            None => nibble_value(self.gen().height(x, y)),
        }
    }

    /// The pixels of the chunk at an index, in row-major order: those stored, or the
    /// generator's for a chunk not yet generated.
    pub open spec fn chunk_view(&self, i: int) -> Seq<u8> {
        match self.slots()[i] {
            Some(c) => c.pixels(),
            None => Seq::new(
                CHUNK_PIXELS as nat,
                |c: int| nibble_value(self.gen().height(c % 64 + (i % 16) * 64, c / 64 + (i / 16) * 64)),
            ),
        }
    }

    /// A terrain with a custom generator; no chunk is generated yet.
    pub fn with_generator(generator: G) -> (r: Self)
        ensures
            r.wf(),
            r.gen() == generator,
            r.updated_view() == Set::<int>::empty(),
            forall|i: int| 0 <= i < NUM_CHUNKS ==> #[trigger] r.slots()[i] is None,
    {
        let mut chunks: Vec<Option<Box<Chunk>>> = Vec::new();
        let mut i: usize = 0;
        while i < NUM_CHUNKS
            invariant
                i <= NUM_CHUNKS,
                chunks@.len() == i,
                forall|j: int| 0 <= j < i ==> #[trigger] chunks@[j] is None,
            decreases NUM_CHUNKS - i,
        {
            chunks.push(None);
            i += 1;
        }
        Terrain { chunks, updated: ChunkSet::new(), generator, now: 0 }
    }

    /// The chunk with an id, generating it first if it is not yet.
    pub fn mut_chunk(&mut self, chunk_id: ChunkId) -> (r: &mut Chunk)
        requires
            old(self).wf(),
            chunk_id.valid(),
        ensures
            r.wf(),
            old(self).slots()[chunk_id.index_spec()] matches Some(c) ==> *r == *c,
            old(self).slots()[chunk_id.index_spec()] is None ==> r.pending() is Unchanged
                && r.regen_at().is_none() && forall|x: int, y: int|
                0 <= x < 64 && 0 <= y < 64 ==> #[trigger] r.pixels()[cell(x, y)] == nibble_value(
                    old(self).gen().height(x + chunk_id.0 * 64, y + chunk_id.1 * 64),
                ),
            final(self).slots() == old(self).slots().update(chunk_id.index_spec(), Some(Box::new(*final(r)))),
            final(self).updated_set() == old(self).updated_set(),
            final(self).gen() == old(self).gen(),
            final(self).clock() == old(self).clock(),
    {
        let i = chunk_id.as_index();
        if self.chunks[i].is_none() {
            let c = Chunk::new(chunk_id, &self.generator);
            self.chunks.set(i, Some(c));
        }
        self.chunks[i].as_mut().unwrap()
    }
}


impl<G: Generator> Terrain<G> {
    /// The raw data at a pixel.
    pub fn at(&self, coord: Coord) -> (r: u8)
        requires
            self.wf(),
            coord.in_terrain(),
        ensures
            r == self.pixel(coord.0 as int, coord.1 as int),
            nibble_value(r) == r,
    {
        let i = ChunkId::from_coord(coord).as_index();
        proof {
            lemma_nibble_of_value(self.gen().height(coord.0 as int, coord.1 as int));
        }
        match &self.chunks[i] {
            Some(c) => c.at(coord),
            None => self.generator.generate(coord.0, coord.1) / 16 * 16,
        }
    }

    /// Sets the raw data at a pixel and records the change. Returns whether the pixel's value
    /// actually changed.
    pub fn set(&mut self, coord: Coord, value: u8) -> (r: bool)
        requires
            old(self).wf(),
            old(self).no_mods(),
            coord.in_terrain(),
        ensures
            final(self).wf(),
            final(self).no_mods(),
            final(self).gen() == old(self).gen(),
            final(self).clock() == old(self).clock(),
            r == (old(self).pixel(coord.0 as int, coord.1 as int) != nibble_value(value)),
            final(self).pixel(coord.0 as int, coord.1 as int) == nibble_value(value),
            forall|x: int, y: int|
                0 <= x < SIZE && 0 <= y < SIZE && (x != coord.0 || y != coord.1)
                    ==> #[trigger] final(self).pixel(x, y) == old(self).pixel(x, y),
            r ==> final(self).updated_view() == old(self).updated_view().insert(
                chunk_index_of(coord.0 as int, coord.1 as int),
            ),
            !r ==> final(self).updated_view() == old(self).updated_view(),
    {
        let chunk_id = ChunkId::from_coord(coord);
        let now = self.now;
        let ghost idx = chunk_id.index_spec();
        let ghost old_slots = self.slots();
        let chunk = self.mut_chunk(chunk_id);
        let ghost before = *chunk;
        let changed = chunk.at(coord) != value / 16 * 16;
        if changed {
            chunk.set_capture(coord, value, now);
        }
        let ghost after = *chunk;
        proof {
            before.lemma_pixels_len();
            after.lemma_pixels_len();
            assert(self.slots() == old_slots.update(idx, Some(Box::new(after))));
            assert(after.pixels() == if changed {
                before.pixels().update(cell(coord.0 as int % 64, coord.1 as int % 64), nibble_value(value))
            } else {
                before.pixels()
            });
            assert forall|x: int, y: int|
                0 <= x < SIZE && 0 <= y < SIZE && chunk_index_of(x, y) != idx implies
                #[trigger] self.pixel(x, y) == old(self).pixel(x, y) by {
                assert(self.slots()[chunk_index_of(x, y)] == old_slots[chunk_index_of(x, y)]);
            }
            assert forall|x: int, y: int|
                0 <= x < SIZE && 0 <= y < SIZE && chunk_index_of(x, y) == idx implies
                #[trigger] self.pixel(x, y) == (if x == coord.0 && y == coord.1 && changed {
                    nibble_value(value)
                } else {
                    old(self).pixel(x, y)
                }) by {
                assert(x % 64 + chunk_id.0 * 64 == x);
                assert(y % 64 + chunk_id.1 * 64 == y);
                if changed && cell(x % 64, y % 64) == cell(coord.0 as int % 64, coord.1 as int % 64) {
                    assert(x == coord.0 && y == coord.1);
                }
            }
            assert(old(self).pixel(coord.0 as int, coord.1 as int) == before.pixels()[cell(
                coord.0 as int % 64,
                coord.1 as int % 64,
            )]) by {
                assert(coord.0 % 64 + chunk_id.0 * 64 == coord.0);
                assert(coord.1 % 64 + chunk_id.1 * 64 == coord.1);
            }
            assert forall|i: int| 0 <= i < NUM_CHUNKS implies !(#[trigger] self.slots()[i] matches Some(c) && c.pending() is Mods) by {
                if i != idx {
                    assert(self.slots()[i] == old_slots[i]);
                }
            }
        }
        if changed {
            self.updated.add(chunk_id);
        }
        proof {
            lemma_nibble_of_value(value);
        }
        changed
    }
}

proof fn lemma_nibble_of_value(v: u8)
    ensures
        nibble_value(nibble_value(v)) == nibble_value(v),
        v / 16 * 16 == nibble_value(v),
{
    assert(nibble_value(nibble_value(v)) == nibble_value(v)) by (nonlinear_arith)
        requires
            0 <= v < 256,
    ;
}


/// Raw data plus a signed amount, saturating at both ends.
pub open spec fn saturating_add_signed(p: u8, amount: i8) -> u8 {
    let v = p + amount;
    if v < 0 { 0 } else if v > 255 { 255 } else { v as u8 }
}

/// The raw data that a pixel holding `p` takes when an amount is added to it, provided that its
/// altitude lies in `condition`; the new altitude is kept within `clamp`. `None` where the
/// condition does not hold.
pub open spec fn mutated(p: u8, amount: i8, condition: (i8, i8), clamp: (i8, i8)) -> Option<u8> {
    let old = (p + 3) as u8;
    let alt = lookup_altitude_spec(old);
    if condition.0 <= alt <= condition.1 {
        let new_alt = lookup_altitude_spec(saturating_add_signed(old, amount));
        let clamped = if new_alt < clamp.0 { clamp.0 as int } else if new_alt > clamp.1 { clamp.1 as int } else { new_alt };
        Some(reverse_lookup_altitude_spec(clamped) as u8)
    } else {
        None
    }
}

impl<G: Generator> Terrain<G> {
    /// Adds an amount of land at a pixel, provided its altitude lies within `condition`,
    /// keeping the result within `clamp`. Returns whether the pixel actually changed.
    pub fn mutate(
        &mut self,
        coord: Coord,
        amount: i8,
        condition: (Altitude, Altitude),
        clamp: (Altitude, Altitude),
    ) -> (r: bool)
        requires
            old(self).wf(),
            old(self).no_mods(),
            coord.in_terrain(),
            clamp.0.0 <= clamp.1.0,
        ensures
            final(self).wf(),
            final(self).no_mods(),
            final(self).gen() == old(self).gen(),
            ({
                let m = mutated(
                    old(self).pixel(coord.0 as int, coord.1 as int),
                    amount,
                    (condition.0.0, condition.1.0),
                    (clamp.0.0, clamp.1.0),
                );
                &&& m is None ==> !r && final(self).slots() == old(self).slots()
                    && final(self).updated_view() == old(self).updated_view()
                &&& m matches Some(v) ==> final(self).pixel(coord.0 as int, coord.1 as int)
                    == nibble_value(v) && r == (old(self).pixel(coord.0 as int, coord.1 as int)
                    != nibble_value(v))
            }),
            forall|x: int, y: int|
                0 <= x < SIZE && 0 <= y < SIZE && (x != coord.0 || y != coord.1)
                    ==> #[trigger] final(self).pixel(x, y) == old(self).pixel(x, y),
    {
        let p = self.at(coord);
        proof {
            lemma_pixel_at_most(p);
        }
        let old_data = p + 3;
        let old_altitude = lookup_altitude(old_data);
        if condition.0.0 <= old_altitude.0 && old_altitude.0 <= condition.1.0 {
            let sum: i16 = old_data as i16 + amount as i16;
            let added: u8 = if sum < 0 {
                0
            } else if sum > 255 {
                255
            } else {
                sum as u8
            };
            let new = lookup_altitude(added);
            let clamped = if new.0 < clamp.0.0 {
                clamp.0
            } else if new.0 > clamp.1.0 {
                clamp.1
            } else {
                new
            };
            let data = reverse_lookup_altitude(clamped);
            self.set(coord, data)
        } else {
            false
        }
    }
}

proof fn lemma_pixel_at_most(p: u8)
    requires
        p == nibble_value(p),
    ensures
        p <= 240,
{
    assert(p / 16 <= 15);
    assert((p / 16) * 16 <= 240) by (nonlinear_arith)
        requires
            p / 16 <= 15,
    ;
}


/// The value that `iter_rect_or` gives at column `i` and row `j` of its rectangle.
pub open spec fn rect_value<G: Generator>(
    t: Terrain<G>,
    center: Coord,
    width: int,
    height: int,
    default: u8,
    i: int,
    j: int,
) -> u8 {
    let x = center.0 + i - width / 2;
    let y = center.1 + j - height / 2;
    if 0 <= x < SIZE && 0 <= y < SIZE {
        t.pixel(x, y)
    } else {
        default
    }
}

/// Whether a chunk's regeneration time has come.
pub open spec fn chunk_due(c: Chunk, now: u64) -> bool {
    match c.regen_at() {
        Some(t) => t <= now,
        None => false,
    }
}

/// Whether a slot holds a chunk whose regeneration time has come.
pub open spec fn slot_due(slot: Option<Box<Chunk>>, now: u64) -> bool {
    match slot {
        Some(c) => chunk_due(*c, now),
        None => false,
    }
}

/// Pixels after a regeneration step toward a generator's heights.
pub open spec fn regenerated<G: Generator>(old: Seq<u8>, new: Seq<u8>, g: G, id: ChunkId) -> bool {
    forall|x: int, y: int|
        0 <= x < 64 && 0 <= y < 64 ==> #[trigger] new[cell(x, y)] == crate::chunk::step_toward(
            old[cell(x, y)],
            nibble_value(g.height(x + id.0 * 64, y + id.1 * 64)),
        )
}

impl<G: Generator> Terrain<G> {
    /// The raw data of exactly `width * height` pixels of a rectangle around a center, row by
    /// row; pixels outside the terrain give `default`.
    pub fn iter_rect_or(&self, center: Coord, width: usize, height: usize, default: u8) -> (r: Vec<u8>)
        requires
            self.wf(),
            width * height <= usize::MAX,
            center.0 + width <= usize::MAX,
            center.1 + height <= usize::MAX,
        ensures
            r@.len() == width * height,
            forall|k: int|
                0 <= k < width * height ==> #[trigger] r@[k] == rect_value(
                    *self,
                    center,
                    width as int,
                    height as int,
                    default,
                    k % width as int,
                    k / width as int,
                ),
    {
        let mut r: Vec<u8> = Vec::new();
        let mut j: usize = 0;
        while j < height
            invariant
                self.wf(),
                j <= height,
                width * height <= usize::MAX,
                center.0 + width <= usize::MAX,
                center.1 + height <= usize::MAX,
                r@.len() == j * width,
                forall|k: int|
                    0 <= k < r@.len() ==> #[trigger] r@[k] == rect_value(
                        *self,
                        center,
                        width as int,
                        height as int,
                        default,
                        k % width as int,
                        k / width as int,
                    ),
            decreases height - j,
        {
            let mut i: usize = 0;
            proof {
                assert(j * width + width <= width * height) by (nonlinear_arith)
                    requires
                        j < height,
                ;
            }
            while i < width
                invariant
                    self.wf(),
                    j < height,
                    i <= width,
                    j * width + width <= width * height,
                    width * height <= usize::MAX,
                    center.0 + width <= usize::MAX,
                    center.1 + height <= usize::MAX,
                    r@.len() == j * width + i,
                    forall|k: int|
                        0 <= k < r@.len() ==> #[trigger] r@[k] == rect_value(
                            *self,
                            center,
                            width as int,
                            height as int,
                            default,
                            k % width as int,
                            k / width as int,
                        ),
                decreases width - i,
            {
                let v = if center.0 + i >= width / 2 && center.1 + j >= height / 2 {
                    let x = center.0 + i - width / 2;
                    let y = center.1 + j - height / 2;
                    if x < SIZE && y < SIZE {
                        self.at(Coord(x, y))
                    } else {
                        default
                    }
                } else {
                    default
                };
                proof {
                    let k = j * width + i;
                    vstd::arithmetic::div_mod::lemma_fundamental_div_mod_converse(
                        k as int,
                        width as int,
                        j as int,
                        i as int,
                    );
                }
                r.push(v);
                i += 1;
            }
            assert((j + 1) * width == j * width + width) by (nonlinear_arith);
            j += 1;
        }
        assert(j * width == width * height) by (nonlinear_arith)
            requires
                j == height,
        ;
        r
    }

    /// Forgets which chunks were modified, and what happened to each of them.
    pub fn clear_updated(&mut self)
        requires
            old(self).wf(),
        ensures
            final(self).wf(),
            final(self).gen() == old(self).gen(),
            final(self).updated_view() == Set::<int>::empty(),
            forall|x: int, y: int|
                0 <= x < SIZE && 0 <= y < SIZE ==> #[trigger] final(self).pixel(x, y) == old(self).pixel(x, y),
            forall|i: int|
                0 <= i < NUM_CHUNKS && old(self).updated_view().contains(i) ==> (#[trigger] final(self).slots()[i] matches Some(c) && c.pending() is Unchanged),
            forall|i: int|
                0 <= i < NUM_CHUNKS && !old(self).updated_view().contains(i) ==> #[trigger] final(self).slots()[i] == old(self).slots()[i],
    {
        let mut updated = ChunkSet::new();
        core::mem::swap(&mut self.updated, &mut updated);
        let ids = updated.into_iter();
        let mut k: usize = 0;
        while k < ids.len()
            invariant
                self.wf(),
                k <= ids@.len(),
                self.gen() == old(self).gen(),
                self.updated_view() == Set::<int>::empty(),
                forall|j: int| 0 <= j < ids@.len() ==> (#[trigger] ids@[j]).valid(),
                forall|a: int, b: int| 0 <= a < b < ids@.len() ==> #[trigger] ids@[a].index_spec() < #[trigger] ids@[b].index_spec(),
                forall|i: int| old(self).updated_view().contains(i) <==> exists|j: int| 0 <= j < ids@.len() && #[trigger] ids@[j].index_spec() == i,
                forall|x: int, y: int|
                    0 <= x < SIZE && 0 <= y < SIZE ==> #[trigger] self.pixel(x, y) == old(self).pixel(x, y),
                forall|j: int|
                    0 <= j < k ==> (#[trigger] self.slots()[ids@[j].index_spec()] matches Some(c) && c.pending() is Unchanged),
                forall|i: int|
                    0 <= i < NUM_CHUNKS && !(exists|j: int| 0 <= j < k && #[trigger] ids@[j].index_spec() == i) ==> #[trigger] self.slots()[i] == old(self).slots()[i],
            decreases ids@.len() - k,
        {
            let id = ids[k];
            let ghost old_slots = self.slots();
            let ghost before_self = *self;
            let chunk = self.mut_chunk(id);
            let ghost before = *chunk;
            chunk.set_update(ChunkUpdate::Unchanged);
            let ghost after = *chunk;
            proof {
                let idx = id.index_spec();
                assert(self.slots() == old_slots.update(idx, Some(Box::new(after))));
                before.lemma_pixels_len();
                assert forall|x: int, y: int|
                    0 <= x < SIZE && 0 <= y < SIZE implies #[trigger] self.pixel(x, y) == before_self.pixel(x, y) by {
                    if chunk_index_of(x, y) == idx {
                        assert(x / 64 < 16 && y / 64 < 16);
                        assert(x / 64 == id.0 && y / 64 == id.1);
                        assert(x % 64 + id.0 * 64 == x);
                        assert(y % 64 + id.1 * 64 == y);
                    }
                }
                assert forall|j: int| 0 <= j < k + 1 implies (#[trigger] self.slots()[ids@[j].index_spec()] matches Some(c) && c.pending() is Unchanged) by {
                    if j < k {
                        if ids@[j].index_spec() != idx {
                            assert(self.slots()[ids@[j].index_spec()] == old_slots[ids@[j].index_spec()]);
                        }
                    }
                }
                assert forall|i: int|
                    0 <= i < NUM_CHUNKS && !(exists|j: int| 0 <= j < k + 1 && #[trigger] ids@[j].index_spec() == i) implies #[trigger] self.slots()[i] == old(self).slots()[i] by {
                    assert(ids@[k as int].index_spec() != i);
                    assert(!(exists|j: int| 0 <= j < k && #[trigger] ids@[j].index_spec() == i));
                }
            }
            k += 1;
        }
    }
}


impl<G: Generator> Terrain<G> {
    /// Converts each chunk's modified pixels into packed edits, once per tick before clients
    /// receive updates.
    pub fn pre_update(&mut self)
        requires
            old(self).wf(),
            old(self).no_mods(),
        ensures
            final(self).wf(),
            final(self).gen() == old(self).gen(),
            final(self).clock() == old(self).clock(),
            final(self).updated_view() == old(self).updated_view(),
            forall|i: int|
                0 <= i < NUM_CHUNKS ==> match (#[trigger] old(self).slots()[i], final(self).slots()[i]) {
                    (None, None) => true,
                    (Some(a), Some(b)) => b.pixels() == a.pixels() && b.regen_at() == a.regen_at()
                        && mods_calculated(a.pending(), a.pixels(), b.pending()),
                    _ => false,
                },
    {
        let mut i: usize = 0;
        while i < NUM_CHUNKS
            invariant
                i <= NUM_CHUNKS,
                self.wf(),
                old(self).no_mods(),
                self.gen() == old(self).gen(),
                self.clock() == old(self).clock(),
                self.updated_set() == old(self).updated_set(),
                forall|j: int|
                    0 <= j < i ==> match (#[trigger] old(self).slots()[j], self.slots()[j]) {
                        (None, None) => true,
                        (Some(a), Some(b)) => b.pixels() == a.pixels() && b.regen_at() == a.regen_at()
                            && mods_calculated(a.pending(), a.pixels(), b.pending()),
                        _ => false,
                    },
                forall|j: int| i <= j < NUM_CHUNKS ==> #[trigger] self.slots()[j] == old(self).slots()[j],
            decreases NUM_CHUNKS - i,
        {
            if self.chunks[i].is_some() {
                let ghost old_slots = self.chunks@;
                let c = self.chunks[i].as_mut().unwrap();
                c.calculate_mods();
                proof {
                    assert forall|j: int| 0 <= j < NUM_CHUNKS && j != i implies #[trigger] self.chunks@[j] == old_slots[j] by {}
                }
            }
            i += 1;
        }
    }

    /// Resets the record of modified chunks once per tick after clients receive updates, and
    /// regenerates each chunk whose regeneration time has come (`now`, in milliseconds).
    pub fn post_update(&mut self, now: u64)
        requires
            old(self).wf(),
        ensures
            final(self).wf(),
            final(self).no_mods(),
            final(self).gen() == old(self).gen(),
            final(self).clock() == now,
            forall|i: int|
                0 <= i < NUM_CHUNKS ==> (#[trigger] final(self).updated_view().contains(i) <==> slot_due(
                old(self).slots()[i],
                now,
            )),
            forall|i: int|
                0 <= i < NUM_CHUNKS ==> match (#[trigger] old(self).slots()[i], final(self).slots()[i]) {
                    (None, None) => true,
                    (Some(a), Some(b)) => if chunk_due(*a, now) {
                        b.pending() is Complete && regenerated(
                            a.pixels(),
                            b.pixels(),
                            old(self).gen(),
                            ChunkId::from_index_spec(i),
                        )
                    } else {
                        b.pending() is Unchanged && b.pixels() == a.pixels() && b.regen_at()
                            == a.regen_at()
                    },
                    _ => false,
                },
    {
        self.updated = ChunkSet::new();
        self.now = now;
        let mut i: usize = 0;
        while i < NUM_CHUNKS
            invariant
                i <= NUM_CHUNKS,
                self.wf(),
                self.gen() == old(self).gen(),
                self.clock() == now,
                forall|j: int|
                    0 <= j < NUM_CHUNKS ==> (#[trigger] self.updated_view().contains(j) <==> (j < i
                        && slot_due(old(self).slots()[j], now))),
                forall|j: int|
                    0 <= j < i ==> !(#[trigger] self.slots()[j] matches Some(c) && c.pending() is Mods),
                forall|j: int|
                    0 <= j < i ==> match (#[trigger] old(self).slots()[j], self.slots()[j]) {
                        (None, None) => true,
                        (Some(a), Some(b)) => if chunk_due(*a, now) {
                            b.pending() is Complete && regenerated(
                                a.pixels(),
                                b.pixels(),
                                old(self).gen(),
                                ChunkId::from_index_spec(j),
                            )
                        } else {
                            b.pending() is Unchanged && b.pixels() == a.pixels() && b.regen_at()
                                == a.regen_at()
                        },
                        _ => false,
                    },
                forall|j: int| i <= j < NUM_CHUNKS ==> #[trigger] self.slots()[j] == old(self).slots()[j],
            decreases NUM_CHUNKS - i,
        {
            if self.chunks[i].is_some() {
                let id = ChunkId::from_index(i);
                let ghost old_slots = self.chunks@;
                let ghost old_updated = self.updated_view();
                let ghost oc = self.chunks@[i as int];
                let c = self.chunks[i].as_mut().unwrap();
                c.set_update(ChunkUpdate::Unchanged);
                let due = match c.regen_at_exec() {
                    Some(t) => now >= t,
                    None => false,
                };
                if due {
                    c.regenerate(id, &self.generator, now);
                    c.set_update(ChunkUpdate::Complete);
                }
                proof {
                    assert forall|j: int| 0 <= j < NUM_CHUNKS && j != i implies #[trigger] self.chunks@[j] == old_slots[j] by {}
                }
                if due {
                    self.updated.add(id);
                }
                proof {
                    assert(id.index_spec() == i);
                    assert(oc == old(self).slots()[i as int]);
                    assert(slot_due(oc, now) == due);
                    assert forall|j: int| 0 <= j < NUM_CHUNKS implies (#[trigger] self.updated_view().contains(j) <==> (j < i + 1
                        && slot_due(old(self).slots()[j], now))) by {
                        if j != i {
                            assert(self.updated_view().contains(j) == old_updated.contains(j));
                        }
                    }
                }
            }
            i += 1;
        }
    }

    /// Applies chunks received from the server, recording each as modified.
    pub fn apply_update(&mut self, update: &Vec<(ChunkId, SerializedChunk)>, table: &HilbertTable)
        requires
            old(self).wf(),
            table.wf(),
            forall|k: int| 0 <= k < update@.len() ==> (#[trigger] update@[k]).0.valid(),
            forall|a: int, b: int|
                0 <= a < b < update@.len() ==> #[trigger] update@[a].0.index_spec()
                    != #[trigger] update@[b].0.index_spec(),
        ensures
            final(self).wf(),
            final(self).gen() == old(self).gen(),
            forall|k: int|
                0 <= k < update@.len() ==> final(self).slots()[(#[trigger] update@[k]).0.index_spec()] is Some
                    && final(self).chunk_view(update@[k].0.index_spec()) == if update@[k].1.is_update {
                    apply_edits(
                        old(self).chunk_view(update@[k].0.index_spec()),
                        update@[k].1.bytes@,
                        update@[k].1.bytes@.len() as int / 2,
                    )
                } else {
                    uncurve_pixels(decode(update@[k].1.bytes@), table.indices())
                },
            final(self).updated_view() == old(self).updated_view().union(
                Set::new(|i: int| exists|k: int| 0 <= k < update@.len() && #[trigger] update@[k].0.index_spec() == i),
            ),
            forall|i: int|
                0 <= i < NUM_CHUNKS && !(exists|k: int| 0 <= k < update@.len() && #[trigger] update@[k].0.index_spec() == i)
                    ==> #[trigger] final(self).slots()[i] == old(self).slots()[i],
    {
        let mut k: usize = 0;
        while k < update.len()
            invariant
                k <= update@.len(),
                self.wf(),
                table.wf(),
                self.gen() == old(self).gen(),
                forall|j: int| 0 <= j < update@.len() ==> (#[trigger] update@[j]).0.valid(),
                forall|a: int, b: int|
                    0 <= a < b < update@.len() ==> #[trigger] update@[a].0.index_spec()
                        != #[trigger] update@[b].0.index_spec(),
                forall|j: int|
                    0 <= j < k ==> self.slots()[(#[trigger] update@[j]).0.index_spec()] is Some
                        && self.chunk_view(update@[j].0.index_spec()) == if update@[j].1.is_update {
                        apply_edits(
                            old(self).chunk_view(update@[j].0.index_spec()),
                            update@[j].1.bytes@,
                            update@[j].1.bytes@.len() as int / 2,
                        )
                    } else {
                        uncurve_pixels(decode(update@[j].1.bytes@), table.indices())
                    },
                self.updated_view() == old(self).updated_view().union(
                    Set::new(|i: int| exists|j: int| 0 <= j < k && #[trigger] update@[j].0.index_spec() == i),
                ),
                forall|i: int|
                    0 <= i < NUM_CHUNKS && !(exists|j: int| 0 <= j < k && #[trigger] update@[j].0.index_spec() == i)
                        ==> #[trigger] self.slots()[i] == old(self).slots()[i],
            decreases update@.len() - k,
        {
            let id = update[k].0;
            let ghost old_slots = self.slots();
            let ghost old_updated = self.updated_view();
            let ghost before_self = *self;
            let chunk = self.mut_chunk(id);
            let ghost before = *chunk;
            chunk.apply_serialized_chunk(&update[k].1, table);
            let ghost after = *chunk;
            proof {
                let idx = id.index_spec();
                assert(self.slots() == old_slots.update(idx, Some(Box::new(after))));
                before.lemma_pixels_len();
                assert(!(exists|j: int| 0 <= j < k && #[trigger] update@[j].0.index_spec() == idx)) by {
                    if exists|j: int| 0 <= j < k && #[trigger] update@[j].0.index_spec() == idx {
                        let j = choose|j: int| 0 <= j < k && #[trigger] update@[j].0.index_spec() == idx;
                        assert(update@[j].0.index_spec() != update@[k as int].0.index_spec());
                    }
                }
                assert(old_slots[idx] == old(self).slots()[idx]);
                assert(before.pixels() =~= old(self).chunk_view(idx)) by {
                    if old_slots[idx] is None {
                        assert forall|c: int| 0 <= c < CHUNK_PIXELS implies #[trigger] before.pixels()[c]
                            == old(self).chunk_view(idx)[c] by {
                            let x = c % 64;
                            let y = c / 64;
                            assert(cell(x, y) == c);
                            assert(idx % 16 == id.0 && idx / 16 == id.1);
                        }
                    }
                }
                assert forall|j: int| 0 <= j < k implies update@[j].0.index_spec() != idx by {}
            }
            self.updated.add(id);
            proof {
                assert(self.updated_view() =~= old(self).updated_view().union(
                    Set::new(|i: int| exists|j: int| 0 <= j < k + 1 && #[trigger] update@[j].0.index_spec() == i),
                )) by {
                    assert forall|i: int| #[trigger] self.updated_view().contains(i) == old(self).updated_view().union(
                        Set::new(|i: int| exists|j: int| 0 <= j < k + 1 && #[trigger] update@[j].0.index_spec() == i),
                    ).contains(i) by {
                        if i == id.index_spec() {
                            assert(update@[k as int].0.index_spec() == i);
                        }
                        if exists|j: int| 0 <= j < k + 1 && #[trigger] update@[j].0.index_spec() == i {
                            let j = choose|j: int| 0 <= j < k + 1 && #[trigger] update@[j].0.index_spec() == i;
                            if j < k {
                                assert(old_updated.contains(i));
                            }
                        }
                    }
                }
                assert forall|i: int|
                    0 <= i < NUM_CHUNKS && !(exists|j: int| 0 <= j < k + 1 && #[trigger] update@[j].0.index_spec() == i)
                        implies #[trigger] self.slots()[i] == old(self).slots()[i] by {
                    assert(update@[k as int].0.index_spec() != i);
                    assert(!(exists|j: int| 0 <= j < k && #[trigger] update@[j].0.index_spec() == i));
                }
            }
            k += 1;
        }
        assert(Set::new(|i: int| exists|j: int| 0 <= j < k && #[trigger] update@[j].0.index_spec() == i)
            =~= Set::new(|i: int| exists|j: int| 0 <= j < update@.len() && #[trigger] update@[j].0.index_spec() == i));
    }
}

} // verus!
