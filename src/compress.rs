use vstd::prelude::*;

verus! {

/// Longest run that one byte of the encoding holds.
pub const MAX_COUNT: u8 = 16;

/// The pixel value that a byte of raw data stands for: its high nibble.
pub open spec fn nibble_value(b: u8) -> u8 {
    ((b / 16) * 16) as u8
}

/// The pixels that one byte `{nibble:4, count_minus_one:4}` of the encoding stands for.
pub open spec fn run(t: u8) -> Seq<u8> {
    Seq::new((t % 16 + 1) as nat, |_i: int| nibble_value(t))
}

/// The pixels that an encoding stands for: the runs of its bytes, in order.
pub open spec fn decode(s: Seq<u8>) -> Seq<u8>
    decreases s.len(),
{
    if s.len() == 0 {
        Seq::empty()
    } else {
        run(s[0]) + decode(s.skip(1))
    }
}

/// The encoding after one more pixel: the last run grows if it holds the same nibble and
/// has room, otherwise a new run of one starts.
pub open spec fn encode_step(e: Seq<u8>, b: u8) -> Seq<u8> {
    if e.len() > 0 && e.last() / 16 == b / 16 && e.last() % 16 < 15 {
        e.update(e.len() - 1, (e.last() + 1) as u8)
    } else {
        e.push(nibble_value(b))
    }
}

/// Run-length encoding of a sequence of pixels.
pub open spec fn encode(s: Seq<u8>) -> Seq<u8>
    decreases s.len(),
{
    if s.len() == 0 {
        Seq::empty()
    } else {
        encode_step(encode(s.drop_last()), s.last())
    }
}

/// The high nibbles of a sequence of pixels.
pub open spec fn nibbles(s: Seq<u8>) -> Seq<u8> {
    s.map_values(|b: u8| nibble_value(b))
}

proof fn lemma_decode_push(s: Seq<u8>, t: u8)
    ensures
        decode(s.push(t)) == decode(s) + run(t),
    decreases s.len(),
{
    if s.len() == 0 {
        assert(s.push(t).skip(1) =~= Seq::<u8>::empty());
        assert(decode(Seq::<u8>::empty()) == Seq::<u8>::empty());
        assert(run(t) + Seq::<u8>::empty() =~= run(t));
    } else {
        assert(s.push(t).skip(1) =~= s.skip(1).push(t));
        lemma_decode_push(s.skip(1), t);
        assert(run(s[0]) + (decode(s.skip(1)) + run(t)) =~= (run(s[0]) + decode(s.skip(1)))
            + run(t));
    }
}

proof fn lemma_decode_encode_step(e: Seq<u8>, b: u8)
    ensures
        decode(encode_step(e, b)) == decode(e).push(nibble_value(b)),
{
    if e.len() > 0 && e.last() / 16 == b / 16 && e.last() % 16 < 15 {
        let p = e.drop_last();
        let t = e.last();
        assert(e =~= p.push(t));
        assert(e.update(e.len() - 1, (t + 1) as u8) =~= p.push((t + 1) as u8));
        lemma_decode_push(p, t);
        lemma_decode_push(p, (t + 1) as u8);
        assert(run((t + 1) as u8) =~= run(t).push(nibble_value(b)));
        assert(decode(p) + run(t).push(nibble_value(b)) =~= (decode(p) + run(t)).push(
            nibble_value(b),
        ));
    } else {
        lemma_decode_push(e, nibble_value(b));
        assert(run(nibble_value(b)) =~= seq![nibble_value(b)]);
        assert(decode(e) + seq![nibble_value(b)] =~= decode(e).push(nibble_value(b)));
    }
}

/// Decoding the encoding of a sequence of pixels gives back their high nibbles.
pub proof fn lemma_decode_encode(s: Seq<u8>)
    ensures
        decode(encode(s)) == nibbles(s),
    decreases s.len(),
{
    if s.len() == 0 {
        assert(nibbles(s) =~= Seq::<u8>::empty());
    } else {
        lemma_decode_encode(s.drop_last());
        lemma_decode_encode_step(encode(s.drop_last()), s.last());
        assert(nibbles(s.drop_last()).push(nibble_value(s.last())) =~= nibbles(s));
    }
}

/// Builds the run-length encoding of pixels one at a time.
pub struct Compressor {
    buf: Vec<u8>,
}

impl Compressor {
    /// The encoding so far.
    pub closed spec fn view(&self) -> Seq<u8> {
        self.buf@
    }

    pub fn new(capacity: usize) -> (r: Self)
        ensures
            r@ == Seq::<u8>::empty(),
    {
        Compressor { buf: Vec::with_capacity(capacity) }
    }

    /// Appends one pixel (its high nibble) to the encoding.
    pub fn write_byte(&mut self, b: u8)
        ensures
            final(self)@ == encode_step(old(self)@, b),
    {
        let next = b / 16;
        let n = self.buf.len();
        if n > 0 {
            let tuple = self.buf[n - 1];
            let current = tuple / 16;
            let count_minus_one = tuple % MAX_COUNT;
            if next == current && count_minus_one < MAX_COUNT - 1 {
                self.buf.set(n - 1, tuple + 1);
                return;
            }
        }
        self.buf.push(next * 16);
    }

    pub fn into_vec(self) -> (r: Vec<u8>)
        ensures
            r@ == self@,
    {
        self.buf
    }
}

/// Reads back the pixels of a run-length encoding one at a time.
pub struct Decompressor<'a> {
    buf: &'a [u8],
    off: usize,
    repeat: u8,
}

impl<'a> Decompressor<'a> {
    pub closed spec fn wf(&self) -> bool {
        self.off <= self.buf@.len() && (self.off < self.buf@.len() ==> self.repeat
            <= self.buf@[self.off as int] % 16)
    }

    /// The pixels not yet read.
    pub closed spec fn remaining(&self) -> Seq<u8> {
        if self.off < self.buf@.len() {
            let t = self.buf@[self.off as int];
            run(t).skip(self.repeat as int) + decode(self.buf@.skip(self.off + 1))
        } else {
            Seq::empty()
        }
    }

    pub fn new(buf: &'a [u8]) -> (r: Self)
        ensures
            r.wf(),
            r.remaining() == decode(buf@),
    {
        let r = Decompressor { buf, off: 0, repeat: 0 };
        proof {
            if buf@.len() > 0 {
                assert(run(buf@[0]).skip(0) =~= run(buf@[0]));
            } else {
                assert(decode(buf@) == Seq::<u8>::empty());
            }
        }
        r
    }

    /// The next pixel, or `None` once all have been read.
    pub fn next(&mut self) -> (r: Option<u8>)
        requires
            old(self).wf(),
        ensures
            final(self).wf(),
            old(self).remaining().len() == 0 ==> r.is_none() && final(self).remaining().len() == 0,
            old(self).remaining().len() > 0 ==> r == Some(old(self).remaining()[0])
                && final(self).remaining() == old(self).remaining().skip(1),
    {
        if self.off < self.buf.len() {
            let tuple = self.buf[self.off];
            proof {
                let rest = decode(self.buf@.skip(self.off + 1));
                assert(self.remaining()[0] == nibble_value(tuple));
                if tuple % MAX_COUNT != self.repeat {
                    assert(run(tuple).skip(self.repeat as int + 1) + rest =~= (run(tuple).skip(
                        self.repeat as int,
                    ) + rest).skip(1));
                } else {
                    assert((run(tuple).skip(self.repeat as int) + rest).skip(1) =~= rest);
                    let s = self.buf@.skip(self.off + 1);
                    if s.len() > 0 {
                        assert(s.skip(1) =~= self.buf@.skip(self.off + 2));
                        assert(run(s[0]).skip(0) =~= run(s[0]));
                    }
                }
            }
            if tuple % MAX_COUNT != self.repeat {
                self.repeat = self.repeat + 1;
            } else {
                self.off = self.off + 1;
                self.repeat = 0;
            }
            Some(tuple / 16 * 16)
        } else {
            None
        }
    }
}

} // verus!
