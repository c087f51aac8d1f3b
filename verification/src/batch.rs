//! Grouping a sequence of values into fixed-size batches.
//!
//! `Chunks` walks a finite input and hands out consecutive groups of at most
//! `num` values: every group is full except possibly the last one, and the
//! groups concatenate back to the input unchanged.

use vstd::prelude::*;

verus! {

/// The batches of `s` with batch size `b`: full groups of `b` values, then a
/// final short group for a non-empty remainder, and nothing for an empty one.
pub open spec fn chunks_of(s: Seq<i64>, b: int) -> Seq<Seq<i64>>
    recommends
        b >= 1,
    decreases s.len(),
{
    if s.len() == 0 {
        Seq::empty()
    } else if s.len() <= b {
        seq![s]
    } else {
        let step = if b >= 1 { b } else { 1 };
        seq![s.take(step)] + chunks_of(s.skip(step), b)
    }
}

/// The concatenation of a sequence of batches.
pub open spec fn concat_chunks(cs: Seq<Seq<i64>>) -> Seq<i64>
    decreases cs.len(),
{
    if cs.len() == 0 {
        Seq::empty()
    } else {
        cs.first() + concat_chunks(cs.drop_first())
    }
}

/// Batching loses and reorders nothing: concatenating all batches, in order,
/// reproduces the input sequence exactly, for every input length and every
/// batch size of at least one.
pub proof fn lemma_batch_reconstruction(s: Seq<i64>, b: int)
    requires
        b >= 1,
    ensures
        concat_chunks(chunks_of(s, b)) == s,
    decreases s.len(),
{
    if s.len() == 0 {
        assert(concat_chunks(chunks_of(s, b)) =~= s);
    } else if s.len() <= b {
        assert(chunks_of(s, b).first() == s);
        assert(chunks_of(s, b).drop_first() =~= Seq::<Seq<i64>>::empty());
        assert(concat_chunks(Seq::<Seq<i64>>::empty()) == Seq::<i64>::empty());
        assert(concat_chunks(chunks_of(s, b)) =~= s);
    } else {
        lemma_batch_reconstruction(s.skip(b), b);
        let cs = chunks_of(s, b);
        assert(cs.first() == s.take(b));
        assert(cs.drop_first() =~= chunks_of(s.skip(b), b));
        assert(s.take(b) + s.skip(b) =~= s);
    }
}

/// Splits a finite input into batches of `num` values on demand: each call of
/// `next` pulls at most `num` values past the batches already handed out.
pub struct Chunks {
    input: Vec<i64>,
    idx: usize,
    num: usize,
}

impl Chunks {
    /// The values not yet handed out in a batch.
    pub closed spec fn remaining(&self) -> Seq<i64> {
        self.input@.skip(self.idx as int)
    }

    /// The configured batch size.
    pub closed spec fn size(&self) -> int {
        self.num as int
    }

    pub closed spec fn wf(&self) -> bool {
        self.idx <= self.input@.len() && self.num >= 1
    }

    /// A batcher over `input` with batch size `num`.
    pub fn new(input: Vec<i64>, num: usize) -> (r: Self)
        requires
            num >= 1,
        ensures
            r.wf(),
            r.remaining() == input@,
            r.size() == num as int,
    {
        let r = Chunks { input, idx: 0, num };
        proof {
            assert(r.remaining() =~= r.input@);
        }
        r
    }

    /// The next batch: the first `num` remaining values, or all of them when
    /// fewer are left, or nothing when none is left.
    pub fn next(&mut self) -> (r: Option<Vec<i64>>)
        requires
            old(self).wf(),
        ensures
            final(self).wf(),
            final(self).size() == old(self).size(),
            old(self).remaining().len() == 0 ==> r is None && final(self).remaining()
                == old(self).remaining(),
            old(self).remaining().len() > 0 ==> match r {
                Some(c) => {
                    &&& c@ == chunks_of(old(self).remaining(), old(self).size()).first()
                    &&& chunks_of(old(self).remaining(), old(self).size()) == seq![c@]
                        + chunks_of(final(self).remaining(), final(self).size())
                },
                None => false,
            },
    {
        if self.idx == self.input.len() {
            return None;
        }
        let mut group: Vec<i64> = Vec::new();
        let ghost rem = self.remaining();
        let ghost start = self.idx as int;
        while group.len() < self.num && self.idx < self.input.len()
            invariant
                self.wf(),
                0 <= start <= self.idx as int,
                self.idx as int - start == group@.len(),
                group@.len() <= self.num,
                group@ == self.input@.subrange(start, self.idx as int),
                self.input@.skip(start) == rem,
                rem.len() > 0,
                self.num == old(self).num,
                self.input@ == old(self).input@,
            decreases self.num - group@.len(),
        {
            let v = self.input[self.idx];
            group.push(v);
            self.idx = self.idx + 1;
            proof {
                assert(group@ =~= self.input@.subrange(start, self.idx as int));
            }
        }
        proof {
            let b = self.num as int;
            if rem.len() <= b {
                assert(group@ =~= rem);
                assert(self.remaining() =~= Seq::<i64>::empty());
                assert(chunks_of(self.remaining(), b) =~= Seq::<Seq<i64>>::empty());
                assert(chunks_of(rem, b) =~= seq![group@] + chunks_of(self.remaining(), b));
            } else {
                assert(group@ =~= rem.take(b));
                assert(self.remaining() =~= rem.skip(b));
                assert(chunks_of(rem, b) =~= seq![group@] + chunks_of(self.remaining(), b));
            }
        }
        Some(group)
    }
}

} // verus!
