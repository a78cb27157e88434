use vstd::prelude::*;
use crate::coord::ChunkId;

verus! {

/// Bits kept in each row of a set.
pub const ROW_SIZE: usize = 8;

/// Rows of a set: one bit per chunk.
pub const DATA_SIZE: usize = 32;

/// Number of chunks in the terrain.
pub const NUM_CHUNKS: usize = 256;

/// Whether bit `k` of a row is set.
pub open spec fn bit(row: u8, k: u8) -> bool {
    (row >> k) & 1u8 == 1u8
}

proof fn lemma_bit_and(a: u8, b: u8, k: u8)
    requires
        k < 8,
    ensures
        bit(a & b, k) == (bit(a, k) && bit(b, k)),
{
    assert(((a & b) >> k) & 1u8 == 1u8 <==> ((a >> k) & 1u8 == 1u8 && (b >> k) & 1u8 == 1u8))
        by (bit_vector)
        requires
            k < 8,
    ;
}

proof fn lemma_bit_or(a: u8, b: u8, k: u8)
    requires
        k < 8,
    ensures
        bit(a | b, k) == (bit(a, k) || bit(b, k)),
{
    assert(((a | b) >> k) & 1u8 == 1u8 <==> ((a >> k) & 1u8 == 1u8 || (b >> k) & 1u8 == 1u8))
        by (bit_vector)
        requires
            k < 8,
    ;
}

proof fn lemma_bit_not(a: u8, k: u8)
    requires
        k < 8,
    ensures
        bit(!a, k) == !bit(a, k),
{
    assert(((!a) >> k) & 1u8 == 1u8 <==> !((a >> k) & 1u8 == 1u8)) by (bit_vector)
        requires
            k < 8,
    ;
}

proof fn lemma_bit_set(a: u8, j: u8, k: u8)
    requires
        j < 8,
        k < 8,
    ensures
        bit(a | (1u8 << j), k) == (bit(a, k) || k == j),
{
    assert(((a | (1u8 << j)) >> k) & 1u8 == 1u8 <==> ((a >> k) & 1u8 == 1u8 || k == j))
        by (bit_vector)
        requires
            j < 8,
            k < 8,
    ;
}

proof fn lemma_bit_zero(a: u8)
    ensures
        a == 0 <==> forall|k: u8| k < 8 ==> !#[trigger] bit(a, k),
{
    assert(a == 0 ==> forall|k: u8| k < 8 ==> !#[trigger] bit(a, k)) by {
        assert forall|k: u8| k < 8 && a == 0 implies !#[trigger] bit(a, k) by {
            assert((0u8 >> k) & 1u8 == 0u8) by (bit_vector);
        }
    }
    if a != 0 {
        assert(!(((a >> 0u8) & 1u8 != 1u8) && ((a >> 1u8) & 1u8 != 1u8) && ((a >> 2u8) & 1u8 != 1u8)
            && ((a >> 3u8) & 1u8 != 1u8) && ((a >> 4u8) & 1u8 != 1u8) && ((a >> 5u8) & 1u8 != 1u8)
            && ((a >> 6u8) & 1u8 != 1u8) && ((a >> 7u8) & 1u8 != 1u8))) by (bit_vector)
            requires
                a != 0,
        ;
        assert(bit(a, 0) || bit(a, 1) || bit(a, 2) || bit(a, 3) || bit(a, 4) || bit(a, 5) || bit(a, 6)
            || bit(a, 7));
    }
}

/// The indices of all chunks.
pub open spec fn all_chunks() -> Set<int> {
    Set::new(|i: int| 0 <= i < NUM_CHUNKS)
}

/// A set of chunks, one bit per chunk.
#[derive(Clone)]
pub struct ChunkSet {
    data: Vec<u8>,
}

impl ChunkSet {
    pub closed spec fn wf(&self) -> bool {
        self.data@.len() == DATA_SIZE
    }

    /// The indices (see `ChunkId::index_spec`) of the chunks in the set.
    pub closed spec fn view(&self) -> Set<int> {
        Set::new(
            |i: int| 0 <= i < NUM_CHUNKS && bit(self.data@[i / 8], (i % 8) as u8),
        )
    }

    /// A set holds only indices of chunks of the terrain.
    pub proof fn lemma_view_in_range(&self)
        ensures
            self@.subset_of(all_chunks()),
    {
    }

    pub fn new() -> (r: Self)
        ensures
            r.wf(),
            r@ == Set::<int>::empty(),
    {
        let r = ChunkSet { data: vec![0u8; DATA_SIZE] };
        proof {
            assert forall|i: int| !r@.contains(i) by {
                if 0 <= i < NUM_CHUNKS {
                    lemma_bit_zero(0u8);
                    assert(!bit(0u8, (i % 8) as u8));
                }
            }
            assert(r@ =~= Set::<int>::empty());
        }
        r
    }

    /// Whether the set holds a chunk.
    pub fn contains(&self, chunk_id: ChunkId) -> (r: bool)
        requires
            self.wf(),
            chunk_id.valid(),
        ensures
            r == self@.contains(chunk_id.index_spec()),
    {
        self.contains_index(chunk_id.as_index())
    }

    pub fn contains_index(&self, index: usize) -> (r: bool)
        requires
            self.wf(),
            index < NUM_CHUNKS,
        ensures
            r == self@.contains(index as int),
    {
        let row = self.data[index / ROW_SIZE];
        (row >> ((index % ROW_SIZE) as u8)) & 1u8 == 1u8
    }

    pub fn is_empty(&self) -> (r: bool)
        requires
            self.wf(),
        ensures
            r == (self@ == Set::<int>::empty()),
            self@.subset_of(all_chunks()),
    {
        let mut i: usize = 0;
        while i < DATA_SIZE
            invariant
                i <= DATA_SIZE,
                self.wf(),
                forall|j: int| 0 <= j < i ==> #[trigger] self.data@[j] == 0,
            decreases DATA_SIZE - i,
        {
            if self.data[i] != 0 {
                proof {
                    lemma_bit_zero(self.data@[i as int]);
                    let k = choose|k: u8| k < 8 && #[trigger] bit(self.data@[i as int], k);
                    let idx = i * 8 + k;
                    assert(idx / 8 == i && idx % 8 == k);
                    assert(self@.contains(idx));
                }
                return false;
            }
            i += 1;
        }
        proof {
            assert forall|j: int| !self@.contains(j) by {
                if 0 <= j < NUM_CHUNKS {
                    lemma_bit_zero(0u8);
                    assert(self.data@[j / 8] == 0);
                    assert(!bit(0u8, (j % 8) as u8));
                }
            }
            assert(self@ =~= Set::<int>::empty());
        }
        true
    }

    /// Adds a chunk to the set.
    pub fn add(&mut self, chunk_id: ChunkId)
        requires
            old(self).wf(),
            chunk_id.valid(),
        ensures
            final(self).wf(),
            final(self)@ == old(self)@.insert(chunk_id.index_spec()),
    {
        self.add_index(chunk_id.as_index());
    }

    pub fn add_index(&mut self, index: usize)
        requires
            old(self).wf(),
            index < NUM_CHUNKS,
        ensures
            final(self).wf(),
            final(self)@ == old(self)@.insert(index as int),
    {
        let r = index / ROW_SIZE;
        let k = (index % ROW_SIZE) as u8;
        let row = self.data[r];
        self.data.set(r, row | (1u8 << k));
        proof {
            assert forall|i: int| #[trigger] final(self)@.contains(i) == old(self)@.insert(
                index as int,
            ).contains(i) by {
                if 0 <= i < NUM_CHUNKS {
                    if i / 8 == r {
                        lemma_bit_set(row, k, (i % 8) as u8);
                    }
                }
            }
            assert(final(self)@ =~= old(self)@.insert(index as int));
        }
    }

    /// The chunks of the set, in increasing order of index.
    pub fn into_iter(self) -> (r: Vec<ChunkId>)
        requires
            self.wf(),
        ensures
            forall|j: int| 0 <= j < r@.len() ==> (#[trigger] r@[j]).valid(),
            forall|j: int, k: int| 0 <= j < k < r@.len() ==> #[trigger] r@[j].index_spec() < #[trigger] r@[k].index_spec(),
            forall|i: int| self@.contains(i) <==> exists|j: int| 0 <= j < r@.len() && #[trigger] r@[j].index_spec() == i,
    {
        let mut r: Vec<ChunkId> = Vec::new();
        let mut i: usize = 0;
        while i < NUM_CHUNKS
            invariant
                i <= NUM_CHUNKS,
                self.wf(),
                forall|j: int| 0 <= j < r@.len() ==> (#[trigger] r@[j]).valid() && r@[j].index_spec() < i,
                forall|j: int, k: int| 0 <= j < k < r@.len() ==> #[trigger] r@[j].index_spec() < #[trigger] r@[k].index_spec(),
                forall|x: int| 0 <= x < i ==> (self@.contains(x) <==> exists|j: int| 0 <= j < r@.len() && #[trigger] r@[j].index_spec() == x),
            decreases NUM_CHUNKS - i,
        {
            if self.contains_index(i) {
                let id = ChunkId::from_index(i);
                let ghost r0 = r@;
                r.push(id);
                proof {
                    assert forall|x: int| 0 <= x < i + 1 implies (self@.contains(x) <==> exists|j: int| 0 <= j < r@.len() && #[trigger] r@[j].index_spec() == x) by {
                        if x == i {
                            assert(r@[r@.len() - 1].index_spec() == x);
                        } else {
                            if exists|j: int| 0 <= j < r@.len() && #[trigger] r@[j].index_spec() == x {
                                let j = choose|j: int| 0 <= j < r@.len() && #[trigger] r@[j].index_spec() == x;
                                assert(j < r0.len());
                                assert(r0[j] == r@[j]);
                            }
                            if exists|j: int| 0 <= j < r0.len() && #[trigger] r0[j].index_spec() == x {
                                let j = choose|j: int| 0 <= j < r0.len() && #[trigger] r0[j].index_spec() == x;
                                assert(r@[j] == r0[j]);
                            }
                        }
                    }
                }
            }
            i += 1;
        }
        proof {
            assert forall|x: int| self@.contains(x) <==> exists|j: int| 0 <= j < r@.len() && #[trigger] r@[j].index_spec() == x by {
                if !(0 <= x < NUM_CHUNKS) {
                    if exists|j: int| 0 <= j < r@.len() && #[trigger] r@[j].index_spec() == x {
                        let j = choose|j: int| 0 <= j < r@.len() && #[trigger] r@[j].index_spec() == x;
                        assert(r@[j].valid());
                    }
                }
            }
        }
        r
    }

    fn unary_op<F: Fn(u8) -> u8>(&self, op: F) -> (r: Self)
        requires
            self.wf(),
            forall|a: u8| op.requires((a,)),
        ensures
            r.wf(),
            forall|i: int| 0 <= i < DATA_SIZE ==> op.ensures((self.data@[i],), #[trigger] r.data@[i]),
    {
        let mut result = Self::new();
        let mut i: usize = 0;
        while i < DATA_SIZE
            invariant
                i <= DATA_SIZE,
                self.wf(),
                result.wf(),
                forall|a: u8| op.requires((a,)),
                forall|j: int| 0 <= j < i ==> op.ensures((self.data@[j],), #[trigger] result.data@[j]),
            decreases DATA_SIZE - i,
        {
            let v = op(self.data[i]);
            result.data.set(i, v);
            i += 1;
        }
        result
    }

    fn binary_op<F: Fn(u8, u8) -> u8>(&self, other: &Self, op: F) -> (r: Self)
        requires
            self.wf(),
            other.wf(),
            forall|a: u8, b: u8| op.requires((a, b)),
        ensures
            r.wf(),
            forall|i: int| 0 <= i < DATA_SIZE ==> op.ensures((self.data@[i], other.data@[i]), #[trigger] r.data@[i]),
    {
        let mut result = Self::new();
        let mut i: usize = 0;
        while i < DATA_SIZE
            invariant
                i <= DATA_SIZE,
                self.wf(),
                other.wf(),
                result.wf(),
                forall|a: u8, b: u8| op.requires((a, b)),
                forall|j: int| 0 <= j < i ==> op.ensures((self.data@[j], other.data@[j]), #[trigger] result.data@[j]),
            decreases DATA_SIZE - i,
        {
            let v = op(self.data[i], other.data[i]);
            result.data.set(i, v);
            i += 1;
        }
        result
    }

    /// The intersection of two sets.
    pub fn and(&self, other: &Self) -> (r: Self)
        requires
            self.wf(),
            other.wf(),
        ensures
            r.wf(),
            r@ == self@.intersect(other@),
    {
        let r = self.binary_op(other, |a: u8, b: u8| -> (c: u8) ensures c == a & b { a & b });
        proof {
            assert forall|i: int| #[trigger] r@.contains(i) == self@.intersect(other@).contains(i) by {
                if 0 <= i < NUM_CHUNKS {
                    lemma_bit_and(self.data@[i / 8], other.data@[i / 8], (i % 8) as u8);
                }
            }
            assert(r@ =~= self@.intersect(other@));
        }
        r
    }

    /// The union of two sets.
    pub fn or(&self, other: &Self) -> (r: Self)
        requires
            self.wf(),
            other.wf(),
        ensures
            r.wf(),
            r@ == self@.union(other@),
    {
        let r = self.binary_op(other, |a: u8, b: u8| -> (c: u8) ensures c == a | b { a | b });
        proof {
            assert forall|i: int| #[trigger] r@.contains(i) == self@.union(other@).contains(i) by {
                if 0 <= i < NUM_CHUNKS {
                    lemma_bit_or(self.data@[i / 8], other.data@[i / 8], (i % 8) as u8);
                }
            }
            assert(r@ =~= self@.union(other@));
        }
        r
    }

    /// The chunks that are not in the set.
    pub fn not(&self) -> (r: Self)
        requires
            self.wf(),
        ensures
            r.wf(),
            r@ == all_chunks().difference(self@),
    {
        let r = self.unary_op(|a: u8| -> (c: u8) ensures c == !a { !a });
        proof {
            assert forall|i: int| #[trigger] r@.contains(i) == all_chunks().difference(self@).contains(i) by {
                if 0 <= i < NUM_CHUNKS {
                    lemma_bit_not(self.data@[i / 8], (i % 8) as u8);
                }
            }
            assert(r@ =~= all_chunks().difference(self@));
        }
        r
    }
}

} // verus!
