//! The traversal driver: a stack of bundle readers, one per tree depth.
//!
//! Level `k` holds a reader over the bundle obtained by batching the values
//! of level `k - 1` (level `0`: the root values) and applying the generation
//! rule to each batch.  The driver pulls values level by level, descending
//! while a staged parent guarantees that one more pull is safe, and walking
//! back up with a zero pull budget when a level is exhausted.  Because
//! batching can force a shallow level to hand out values before they are due,
//! a reconstruction step reorders what comes out: it reclaims every value
//! that a deeper pull consumed ahead of time, emits it first, and defers the
//! deeper values through a displacement queue.
//!
//! All readers are owned by the driver and accessed only through it, one
//! operation at a time; sharing a level between the driver and the bundle
//! construction of the level below it needs no interior mutability this way.

use vstd::prelude::*;

use crate::adapter::Adapter;
use crate::reader::pop_passed_spec;
use crate::reader::spent;
use crate::reader::BundleReader;
use crate::reader::ReaderModel;

verus! {

/// Total number of values passed unprepared and not yet reclaimed, over a
/// stack of level reader states.
pub open spec fn total_passed(ms: Seq<ReaderModel>) -> nat
    decreases ms.len(),
{
    if ms.len() == 0 {
        0
    } else {
        ms.first().passed.len() + total_passed(ms.drop_first())
    }
}

proof fn lemma_total_passed_update(ms: Seq<ReaderModel>, i: int, m2: ReaderModel)
    requires
        0 <= i < ms.len(),
    ensures
        total_passed(ms.update(i, m2)) + ms[i].passed.len() == total_passed(ms)
            + m2.passed.len(),
    decreases ms.len(),
{
    if i == 0 {
        assert(ms.update(0, m2).first() == m2);
        assert(ms.update(0, m2).drop_first() =~= ms.drop_first());
    } else {
        assert(ms.update(i, m2).first() == ms.first());
        assert(ms.update(i, m2).drop_first() =~= ms.drop_first().update(i - 1, m2));
        lemma_total_passed_update(ms.drop_first(), i - 1, m2);
    }
}

/// The order-reconstruction worklist of the driver, on the level reader
/// states.  A frame is a value together with the level it came from and the
/// one-based index of its bundle pair.  While the top frame's pair index
/// exceeds what the level above has emitted and that level still holds passed
/// unprepared values, the oldest one is reclaimed and reconstructed first (a
/// new frame); otherwise the frame's value is emitted and the frame retired.
/// Returns the final reader states and the values emitted, in emission order.
pub open spec fn reconstruct_steps(
    ms: Seq<ReaderModel>,
    frames: Seq<(int, i64, int)>,
    emitted: Seq<i64>,
) -> (Seq<ReaderModel>, Seq<i64>)
    decreases 2 * total_passed(ms) + frames.len(),
    via reconstruct_steps_decreases
{
    if frames.len() == 0 {
        (ms, emitted)
    } else {
        let f = frames.last();
        if 0 < f.0 <= ms.len() && f.2 > ms[f.0 - 1].emitted && ms[f.0 - 1].passed.len() > 0 {
            let stepped = pop_passed_spec(ms[f.0 - 1]);
            reconstruct_steps(
                ms.update(f.0 - 1, stepped.0),
                frames.push((f.0 - 1, stepped.1.unwrap().0, stepped.1.unwrap().1)),
                emitted,
            )
        } else {
            reconstruct_steps(ms, frames.drop_last(), emitted.push(f.1))
        }
    }
}

#[via_fn]
proof fn reconstruct_steps_decreases(
    ms: Seq<ReaderModel>,
    frames: Seq<(int, i64, int)>,
    emitted: Seq<i64>,
) {
    if frames.len() > 0 {
        let f = frames.last();
        if 0 < f.0 <= ms.len() && f.2 > ms[f.0 - 1].emitted && ms[f.0 - 1].passed.len() > 0 {
            lemma_total_passed_update(ms, f.0 - 1, pop_passed_spec(ms[f.0 - 1]).0);
        }
    }
}

/// When the pair index of a value does not exceed what the level above has
/// emitted (or the value came from the root level), reconstruction does
/// nothing: the value passes through alone and no reader state moves.
pub proof fn lemma_reconstruct_consistent(ms: Seq<ReaderModel>, l: int, v: i64, t: int)
    requires
        !(0 < l <= ms.len() && t > ms[l - 1].emitted && ms[l - 1].passed.len() > 0),
    ensures
        reconstruct_steps(ms, seq![(l, v, t)], Seq::<i64>::empty()) == (ms, seq![v]),
{
    let frames = seq![(l, v, t)];
    assert(frames.last() == (l, v, t));
    assert(frames.drop_last() =~= Seq::<(int, i64, int)>::empty());
    assert(Seq::<i64>::empty().push(v) =~= seq![v]);
    assert(reconstruct_steps(ms, Seq::<(int, i64, int)>::empty(), seq![v]) == (ms, seq![v]));
    assert(reconstruct_steps(ms, frames, Seq::<i64>::empty()) == reconstruct_steps(
        ms,
        frames.drop_last(),
        Seq::<i64>::empty().push(v),
    ));
}

/// The view of the reconstruction worklist held as a vector of frames.
pub open spec fn frames_view(s: Seq<(usize, i64, usize)>) -> Seq<(int, i64, int)> {
    s.map_values(|f: (usize, i64, usize)| (f.0 as int, f.1, f.2 as int))
}

proof fn lemma_frames_view_push(s: Seq<(usize, i64, usize)>, x: (usize, i64, usize))
    ensures
        frames_view(s.push(x)) == frames_view(s).push((x.0 as int, x.1, x.2 as int)),
{
    assert(frames_view(s.push(x)) =~= frames_view(s).push((x.0 as int, x.1, x.2 as int)));
}

proof fn lemma_frames_view_drop_last(s: Seq<(usize, i64, usize)>)
    requires
        s.len() > 0,
    ensures
        frames_view(s).drop_last() == frames_view(s.drop_last()),
        frames_view(s).last() == (s.last().0 as int, s.last().1, s.last().2 as int),
{
    assert(frames_view(s).drop_last() =~= frames_view(s.drop_last()));
}

/// One depth of the traversal: the reader over this depth's bundle and the
/// group of parent values collected for the next generation batch.
struct Level {
    reader: BundleReader,
    filling: Vec<i64>,
}

impl Level {
    spec fn wf(&self, b: int) -> bool {
        self.reader.wf() && (self.filling@.len() as int) < b
    }
}

/// Stack of bundle readers that also keeps the intermediate results every
/// level has produced, so that no value is recomputed or lost.
pub struct Stack<A: Adapter> {
    levels: Vec<Level>,
    adapter: A,
    /// Values displaced by the reordering step, owed before any new value.
    queue: Vec<i64>,
    /// Largest depth at which one staged parent makes a bounded pull safe.
    next_from: usize,
    root_vals: Vec<i64>,
    root_idx: usize,
    /// Every value the traversal has emitted, in emission order.
    trace: Ghost<Seq<i64>>,
}

impl<A: Adapter> Stack<A> {
    /// Well-formed driver state: every level structurally sound, the frontier
    /// within the stack, the root cursor within the root values, and a batch
    /// size of at least one.
    pub closed spec fn wf(&self) -> bool {
        &&& self.adapter.spec_batching() >= 1
        &&& self.levels@.len() >= 1
        &&& self.next_from <= self.levels@.len()
        &&& self.root_idx <= self.root_vals@.len()
        &&& forall|i: int|
            0 <= i < self.levels@.len() ==> (#[trigger] self.levels@[i]).wf(
                self.adapter.spec_batching() as int,
            )
    }

    /// The values displaced by reordering and owed before any new value.
    pub closed spec fn pending_outputs(&self) -> Seq<i64> {
        self.queue@
    }

    /// The current frontier depth.
    pub closed spec fn frontier(&self) -> int {
        self.next_from as int
    }

    /// How many levels exist so far.
    pub closed spec fn depth(&self) -> int {
        self.levels@.len() as int
    }

    /// The abstract states of the level readers, shallowest first.
    pub closed spec fn level_models(&self) -> Seq<ReaderModel> {
        self.levels@.map_values(|lv: Level| lv.reader@)
    }

    /// The parent groups being collected for generation, one per level.
    pub closed spec fn fillings(&self) -> Seq<Seq<i64>> {
        self.levels@.map_values(|lv: Level| lv.filling@)
    }

    /// The parents each level has handed to the rule so far, in order, one
    /// sequence per level.  Together with `fillings`, grouping loses nothing:
    /// a level's log followed by its group under collection is exactly the
    /// stream of values delivered to that level.
    pub closed spec fn parent_logs(&self) -> Seq<Seq<i64>> {
        self.levels@.map_values(|lv: Level| lv.reader.parents_log())
    }

    /// The rule the driver traverses.
    pub closed spec fn rule(&self) -> A {
        self.adapter
    }

    /// The rule's root values, as the driver stores them.
    pub closed spec fn roots(&self) -> Seq<i64> {
        self.root_vals@
    }

    /// How many root values have been admitted into level 0's batches.
    pub closed spec fn root_cursor(&self) -> int {
        self.root_idx as int
    }

    /// Every value the traversal has emitted so far, in emission order.
    pub closed spec fn emitted(&self) -> Seq<i64> {
        self.trace@
    }

    /// A traversal from which no output will ever come again: no displaced
    /// value is owed, the frontier has walked back to the root level, and
    /// that level's reader is spent.
    pub open spec fn finished(&self) -> bool {
        &&& self.pending_outputs().len() == 0
        &&& self.frontier() == 0
        &&& spent(self.level_models()[0])
    }

    /// A driver for the tree described by `a`, with one (still empty) level.
    pub fn new(a: A) -> (s: Self)
        requires
            a.spec_batching() >= 1,
        ensures
            s.wf(),
            s.depth() == 1,
            s.frontier() == 0,
            s.pending_outputs().len() == 0,
            s.rule() == a,
            s.roots() == a.spec_root(),
            s.root_cursor() == 0,
            s.level_models() == seq![crate::reader::open_empty()],
            s.fillings() == seq![Seq::<i64>::empty()],
            s.emitted().len() == 0,
    {
        let root_vals = a.root();
        let mut levels: Vec<Level> = Vec::new();
        levels.push(Level { reader: BundleReader::new_open(), filling: Vec::new() });
        let s = Stack {
            levels,
            adapter: a,
            queue: Vec::new(),
            next_from: 0,
            root_vals,
            root_idx: 0,
            trace: Ghost(Seq::empty()),
        };
        proof {
            assert(s.level_models() =~= seq![crate::reader::open_empty()]);
            assert(s.fillings() =~= seq![Seq::<i64>::empty()]);
        }
        s
    }

    /// Appends one more level, whose bundle will be generated on demand from
    /// the values of the level below it.
    pub fn extend(&mut self)
        requires
            old(self).wf(),
        ensures
            final(self).wf(),
            final(self).depth() == old(self).depth() + 1,
            final(self).frontier() == old(self).frontier(),
            final(self).pending_outputs() == old(self).pending_outputs(),
            final(self).level_models() == old(self).level_models().push(
                crate::reader::open_empty(),
            ),
            final(self).fillings() == old(self).fillings().push(Seq::<i64>::empty()),
            final(self).roots() == old(self).roots(),
            final(self).root_cursor() == old(self).root_cursor(),
            final(self).rule() == old(self).rule(),
            final(self).emitted() == old(self).emitted(),
    {
        let lv = Level { reader: BundleReader::new_open(), filling: Vec::new() };
        self.levels.push(lv);
        proof {
            assert(self.level_models() =~= old(self).level_models().push(
                crate::reader::open_empty(),
            ));
            assert(self.fillings() =~= old(self).fillings().push(Seq::<i64>::empty()));
        }
    }

    /// Adds one parent value to the batch being collected for level `t`;
    /// when the batch is full, the rule is applied and the resulting bundle
    /// pairs are appended to the level's reader.  Grouping is faithful: the
    /// value joins the level's group, and a full group moves whole, in order,
    /// onto the level's parent log, so log plus group always spell out the
    /// delivered values unchanged.
    fn deliver(&mut self, t: usize, v: i64)
        requires
            old(self).wf(),
            t < old(self).levels@.len(),
        ensures
            final(self).wf(),
            final(self).depth() == old(self).depth(),
            final(self).frontier() == old(self).frontier(),
            final(self).pending_outputs() == old(self).pending_outputs(),
            final(self).roots() == old(self).roots(),
            final(self).root_cursor() == old(self).root_cursor(),
            final(self).rule() == old(self).rule(),
            final(self).emitted() == old(self).emitted(),
            old(self).level_models()[t as int].closed ==> final(self).fillings() == old(self).fillings()
                && final(self).parent_logs() == old(self).parent_logs()
                && final(self).level_models() == old(self).level_models(),
            !old(self).level_models()[t as int].closed ==> ({
                let grown = old(self).fillings()[t as int].push(v);
                if grown.len() < old(self).rule().spec_batching() as int {
                    &&& final(self).fillings() == old(self).fillings().update(t as int, grown)
                    &&& final(self).parent_logs() == old(self).parent_logs()
                    &&& final(self).level_models() == old(self).level_models()
                } else {
                    &&& final(self).fillings() == old(self).fillings().update(
                        t as int,
                        Seq::<i64>::empty(),
                    )
                    &&& final(self).parent_logs() == old(self).parent_logs().update(
                        t as int,
                        old(self).parent_logs()[t as int] + grown,
                    )
                    &&& final(self).level_models()[t as int].pending.len() == old(
                        self,
                    ).level_models()[t as int].pending.len() + grown.len()
                    &&& final(self).level_models()[t as int].closed == old(self).level_models()[
                        t as int
                    ].closed
                }
            }),
    {
        let b = self.adapter.batching();
        if self.levels[t].reader.is_closed() {
            // A closed level admits no further parent; the traversal never
            // hands one to it, so nothing is dropped here.
            return ;
        }
        let ghost grown = old(self).fillings()[t as int].push(v);
        let lv = &mut self.levels[t];
        lv.filling.push(v);
        if lv.filling.len() == b {
            let mut batch: Vec<i64> = Vec::new();
            core::mem::swap(&mut batch, &mut lv.filling);
            proof {
                assert(batch@ == grown);
            }
            let pairs = self.adapter.nei(&batch);
            proof {
                assert(crate::reader::parents_of(crate::reader::bundle_view(pairs@)) =~= batch@);
            }
            let lv2 = &mut self.levels[t];
            lv2.reader.append_pairs(pairs);
            proof {
                assert(self.fillings() =~= old(self).fillings().update(
                    t as int,
                    Seq::<i64>::empty(),
                ));
                assert(self.parent_logs() =~= old(self).parent_logs().update(
                    t as int,
                    old(self).parent_logs()[t as int] + grown,
                ));
            }
        } else {
            proof {
                assert(self.fillings() =~= old(self).fillings().update(t as int, grown));
                assert(self.parent_logs() =~= old(self).parent_logs());
            }
        }
        proof {
            assert forall|i: int|
                0 <= i < self.levels@.len() implies (#[trigger] self.levels@[i]).wf(
                self.adapter.spec_batching() as int,
            ) by {
                if i != t as int {
                    assert(self.levels@[i] == old(self).levels@[i]);
                }
            }
        }
    }

    /// Marks level `t`'s parent source as exhausted: a final short batch is
    /// generated from the collected parents, and the reader is closed.  The
    /// short group moves whole, in order, onto the level's parent log.
    fn finalize(&mut self, t: usize)
        requires
            old(self).wf(),
            t < old(self).levels@.len(),
        ensures
            final(self).wf(),
            final(self).depth() == old(self).depth(),
            final(self).frontier() == old(self).frontier(),
            final(self).pending_outputs() == old(self).pending_outputs(),
            final(self).roots() == old(self).roots(),
            final(self).root_cursor() == old(self).root_cursor(),
            final(self).rule() == old(self).rule(),
            final(self).emitted() == old(self).emitted(),
            (old(self).fillings()[t as int].len() > 0 && !old(self).level_models()[t as int].closed)
                ==> final(self).fillings() == old(self).fillings().update(
                t as int,
                Seq::<i64>::empty(),
            ) && final(self).parent_logs() == old(self).parent_logs().update(
                t as int,
                old(self).parent_logs()[t as int] + old(self).fillings()[t as int],
            ),
            !(old(self).fillings()[t as int].len() > 0 && !old(self).level_models()[t as int].closed)
                ==> final(self).fillings() == old(self).fillings() && final(self).parent_logs()
                == old(self).parent_logs(),
            final(self).level_models()[t as int].closed,
    {
        if self.levels[t].filling.len() > 0 && !self.levels[t].reader.is_closed() {
            let lv = &mut self.levels[t];
            let mut batch: Vec<i64> = Vec::new();
            core::mem::swap(&mut batch, &mut lv.filling);
            proof {
                assert(batch@ == old(self).fillings()[t as int]);
            }
            let pairs = self.adapter.nei(&batch);
            proof {
                assert(crate::reader::parents_of(crate::reader::bundle_view(pairs@)) =~= batch@);
            }
            let lv2 = &mut self.levels[t];
            lv2.reader.append_pairs(pairs);
            proof {
                assert(self.fillings() =~= old(self).fillings().update(
                    t as int,
                    Seq::<i64>::empty(),
                ));
                assert(self.parent_logs() =~= old(self).parent_logs().update(
                    t as int,
                    old(self).parent_logs()[t as int] + batch@,
                ));
            }
        }
        let ghost mid_fillings = self.fillings();
        let ghost mid_logs = self.parent_logs();
        let lv3 = &mut self.levels[t];
        lv3.reader.close();
        proof {
            assert(self.fillings() =~= mid_fillings);
            assert(self.parent_logs() =~= mid_logs);
        }
        proof {
            assert forall|i: int|
                0 <= i < self.levels@.len() implies (#[trigger] self.levels@[i]).wf(
                self.adapter.spec_batching() as int,
            ) by {
                if i != t as int {
                    assert(self.levels@[i] == old(self).levels@[i]);
                }
            }
        }
    }

    /// Ordinary consumption from level `k`, pulling through as many lower
    /// levels as the demand requires.  The walk holds a demand pointer `j`:
    /// a value produced at `j` is delivered to the batch of `j + 1`, an
    /// exhausted level closes the level above it, and a level that needs
    /// parents moves the demand down (at the bottom, to the root values).
    /// The step budget bounds the work of one call; it is far beyond any
    /// state the driver can reach.
    fn consume_from(&mut self, k: usize) -> (r: Option<i64>)
        requires
            old(self).wf(),
            k < old(self).levels@.len(),
        ensures
            final(self).wf(),
            final(self).depth() == old(self).depth(),
            final(self).frontier() == old(self).frontier(),
            final(self).pending_outputs() == old(self).pending_outputs(),
            final(self).roots() == old(self).roots(),
            final(self).rule() == old(self).rule(),
            final(self).emitted() == old(self).emitted(),
            crate::reader::consume_spec(old(self).level_models()[k as int]).1 is Some ==> ({
                let stepped = crate::reader::consume_spec(old(self).level_models()[k as int]);
                &&& r == stepped.1
                &&& final(self).level_models() == old(self).level_models().update(
                    k as int,
                    stepped.0,
                )
                &&& final(self).fillings() == old(self).fillings()
                &&& final(self).root_cursor() == old(self).root_cursor()
            }),
    {
        let mut j: usize = k;
        let mut fuel: usize = usize::MAX;
        loop
            invariant
                self.wf(),
                j <= k,
                k < self.levels@.len(),
                self.depth() == old(self).depth(),
                self.frontier() == old(self).frontier(),
                self.pending_outputs() == old(self).pending_outputs(),
                self.roots() == old(self).roots(),
                self.rule() == old(self).rule(),
                self.emitted() == old(self).emitted(),
                crate::reader::consume_spec(old(self).level_models()[k as int]).1 is Some ==> j
                    == k && fuel == usize::MAX && self.level_models() == old(self).level_models()
                    && self.fillings() == old(self).fillings() && self.root_cursor() == old(
                    self,
                ).root_cursor(),
            decreases fuel,
        {
            if fuel == 0 {
                return None;
            }
            fuel = fuel - 1;
            let ghost pre = self.levels@[j as int].reader@;
            let ghost pre_models_at = self.level_models();
            let ghost pre_fillings_at = self.fillings();
            let lv = &mut self.levels[j];
            let got = lv.reader.consume();
            proof {
                assert(self.level_models() =~= pre_models_at.update(
                    j as int,
                    crate::reader::consume_spec(pre).0,
                ));
                assert(self.fillings() =~= pre_fillings_at);
            }
            match got {
                Some(v) => {
                    if j == k {
                        return Some(v);
                    }
                    self.deliver(j + 1, v);
                    j = j + 1;
                },
                None => {
                    if self.levels[j].reader.is_closed() {
                        if j == k {
                            return None;
                        }
                        self.finalize(j + 1);
                        j = j + 1;
                    } else if j == 0 {
                        if self.root_idx < self.root_vals.len() {
                            let v = self.root_vals[self.root_idx];
                            self.root_idx = self.root_idx + 1;
                            self.deliver(0, v);
                        } else {
                            self.finalize(0);
                        }
                    } else {
                        j = j - 1;
                    }
                },
            }
        }
    }

    /// Collects one batch of parents for level `k` from the level below it
    /// (for level `0`: from the root values) and generates its bundle pairs;
    /// closes the level instead when its source is exhausted.
    fn refill(&mut self, k: usize)
        requires
            old(self).wf(),
            k < old(self).levels@.len(),
        ensures
            final(self).wf(),
            final(self).depth() == old(self).depth(),
            final(self).frontier() == old(self).frontier(),
            final(self).pending_outputs() == old(self).pending_outputs(),
            final(self).roots() == old(self).roots(),
            final(self).rule() == old(self).rule(),
            final(self).emitted() == old(self).emitted(),
    {
        let mut fuel: usize = usize::MAX;
        loop
            invariant
                self.wf(),
                k < self.levels@.len(),
                self.depth() == old(self).depth(),
                self.frontier() == old(self).frontier(),
                self.pending_outputs() == old(self).pending_outputs(),
                self.roots() == old(self).roots(),
                self.rule() == old(self).rule(),
                self.emitted() == old(self).emitted(),
            decreases fuel,
        {
            if fuel == 0 {
                return ;
            }
            fuel = fuel - 1;
            if self.levels[k].reader.has_pending_pairs() {
                return ;
            }
            if self.levels[k].reader.is_closed() {
                return ;
            }
            let got = if k == 0 {
                if self.root_idx < self.root_vals.len() {
                    let v = self.root_vals[self.root_idx];
                    self.root_idx = self.root_idx + 1;
                    Some(v)
                } else {
                    None
                }
            } else {
                self.consume_from(k - 1)
            };
            match got {
                Some(v) => self.deliver(k, v),
                None => {
                    self.finalize(k);
                    return ;
                },
            }
        }
    }

    /// Collects one batch of root values for level 0 and generates its bundle
    /// pairs, or closes the level when the root values are exhausted.  The
    /// root values are all at hand, so this needs no step budget: it ends
    /// with pairs pending or the level closed, and it either admits at least
    /// one root value or closes the level.
    fn refill_root(&mut self)
        requires
            old(self).wf(),
            old(self).level_models()[0].pending.len() == 0,
            !old(self).level_models()[0].closed,
        ensures
            final(self).wf(),
            final(self).depth() == old(self).depth(),
            final(self).frontier() == old(self).frontier(),
            final(self).pending_outputs() == old(self).pending_outputs(),
            final(self).roots() == old(self).roots(),
            final(self).rule() == old(self).rule(),
            final(self).emitted() == old(self).emitted(),
            final(self).root_cursor() >= old(self).root_cursor(),
            final(self).level_models()[0].pending.len() > 0 || final(self).level_models()[0].closed,
            final(self).root_cursor() > old(self).root_cursor() || final(self).level_models()[0].closed,
    {
        loop
            invariant
                self.wf(),
                self.depth() == old(self).depth(),
                self.frontier() == old(self).frontier(),
                self.pending_outputs() == old(self).pending_outputs(),
                self.roots() == old(self).roots(),
                self.rule() == old(self).rule(),
                self.emitted() == old(self).emitted(),
                self.root_cursor() >= old(self).root_cursor(),
                self.level_models()[0].pending.len() > 0 ==> self.root_cursor() > old(
                    self,
                ).root_cursor() || self.level_models()[0].closed,
            decreases
                    self.roots().len() - self.root_cursor(),
                    (if self.level_models()[0].closed {
                        0int
                    } else {
                        1int
                    }),
        {
            if self.levels[0].reader.has_pending_pairs() {
                return ;
            }
            if self.levels[0].reader.is_closed() {
                return ;
            }
            if self.root_idx < self.root_vals.len() {
                let v = self.root_vals[self.root_idx];
                self.root_idx = self.root_idx + 1;
                self.deliver(0, v);
            } else {
                self.finalize(0);
            }
        }
    }

    /// Speculative consumption from level 0.  Every parent of this level is a
    /// root value and at hand by construction, so no pull budget is needed:
    /// when no value comes back, the root level is spent — closed, with
    /// nothing passed, buffered or pending — and the traversal can never
    /// produce output again.
    fn prepare_root(&mut self) -> (r: Option<(i64, usize)>)
        requires
            old(self).wf(),
        ensures
            final(self).wf(),
            final(self).depth() == old(self).depth(),
            final(self).frontier() == old(self).frontier(),
            final(self).pending_outputs() == old(self).pending_outputs(),
            final(self).roots() == old(self).roots(),
            final(self).rule() == old(self).rule(),
            final(self).emitted() == old(self).emitted(),
            r is None ==> spent(final(self).level_models()[0]),
            spent(old(self).level_models()[0]) ==> r is None && final(self).level_models()
                == old(self).level_models() && final(self).fillings() == old(self).fillings()
                && final(self).root_cursor() == old(self).root_cursor(),
            crate::reader::prepare_spec(
                old(self).level_models()[0],
                old(self).level_models()[0].pending.len(),
            ).1 is Some ==> ({
                let stepped = crate::reader::prepare_spec(
                    old(self).level_models()[0],
                    old(self).level_models()[0].pending.len(),
                );
                &&& (match r {
                    Some(p) => p.0 == stepped.1.unwrap().0 && p.1 as int == stepped.1.unwrap().1,
                    None => false,
                })
                &&& final(self).level_models() == old(self).level_models().update(0, stepped.0)
                &&& final(self).fillings() == old(self).fillings()
                &&& final(self).root_cursor() == old(self).root_cursor()
            }),
    {
        loop
            invariant
                self.wf(),
                self.depth() == old(self).depth(),
                self.frontier() == old(self).frontier(),
                self.pending_outputs() == old(self).pending_outputs(),
                self.roots() == old(self).roots(),
                self.rule() == old(self).rule(),
                self.emitted() == old(self).emitted(),
                self.root_cursor() >= old(self).root_cursor(),
                spent(old(self).level_models()[0]) ==> self.level_models() == old(
                    self,
                ).level_models() && self.fillings() == old(self).fillings() && self.root_cursor()
                    == old(self).root_cursor(),
                crate::reader::prepare_spec(
                    old(self).level_models()[0],
                    old(self).level_models()[0].pending.len(),
                ).1 is Some ==> self.level_models() == old(self).level_models() && self.fillings()
                    == old(self).fillings() && self.root_cursor() == old(self).root_cursor(),
            decreases
                    self.roots().len() - self.root_cursor(),
                    (if self.level_models()[0].closed {
                        0int
                    } else {
                        1int
                    }),
        {
            let limit = self.levels[0].reader.pending_count();
            let ghost pre = self.levels@[0].reader@;
            let ghost pre_models_at = self.level_models();
            let ghost pre_fillings_at = self.fillings();
            let lv = &mut self.levels[0];
            let got = lv.reader.prepare_tagged(limit);
            if let Some(p) = got {
                proof {
                    assert(self.level_models() =~= pre_models_at.update(
                        0,
                        crate::reader::prepare_spec(pre, limit as nat).0,
                    ));
                    assert(self.fillings() =~= pre_fillings_at);
                }
                return Some(p);
            }
            proof {
                crate::reader::lemma_prepare_drains(pre, limit as nat);
                assert(self.level_models() =~= pre_models_at.update(
                    0,
                    crate::reader::prepare_spec(pre, limit as nat).0,
                ));
                assert(self.fillings() =~= pre_fillings_at);
            }
            if self.levels[0].reader.is_closed() {
                return None;
            }
            self.refill_root();
        }
    }

    /// Speculative consumption from level `k` with pull budget `pull_limit`,
    /// refilling the level's bundle from below whenever the budget allows one
    /// more pair and none is at hand.  Returns the value together with the
    /// one-based index of the bundle pair it came from.
    fn prepare_at(&mut self, k: usize, pull_limit: usize) -> (r: Option<(i64, usize)>)
        requires
            old(self).wf(),
            k < old(self).levels@.len(),
        ensures
            final(self).wf(),
            final(self).depth() == old(self).depth(),
            final(self).frontier() == old(self).frontier(),
            final(self).pending_outputs() == old(self).pending_outputs(),
            final(self).roots() == old(self).roots(),
            final(self).rule() == old(self).rule(),
            final(self).emitted() == old(self).emitted(),
            pull_limit == 0 && r is None ==> final(self).level_models() == old(self).level_models()
                && final(self).fillings() == old(self).fillings() && final(self).root_cursor()
                == old(self).root_cursor(),
            spent(old(self).level_models()[k as int]) ==> r is None && final(self).level_models()
                == old(self).level_models() && final(self).fillings() == old(self).fillings()
                && final(self).root_cursor() == old(self).root_cursor(),
            crate::reader::prepare_spec(
                old(self).level_models()[k as int],
                pull_limit as nat,
            ).1 is Some ==> ({
                let stepped = crate::reader::prepare_spec(
                    old(self).level_models()[k as int],
                    pull_limit as nat,
                );
                &&& (match r {
                    Some(p) => p.0 == stepped.1.unwrap().0 && p.1 as int == stepped.1.unwrap().1,
                    None => false,
                })
                &&& final(self).level_models() == old(self).level_models().update(
                    k as int,
                    stepped.0,
                )
                &&& final(self).fillings() == old(self).fillings()
                &&& final(self).root_cursor() == old(self).root_cursor()
            }),
    {
        let mut limit = pull_limit;
        let mut fuel: usize = usize::MAX;
        loop
            invariant
                self.wf(),
                k < self.levels@.len(),
                self.depth() == old(self).depth(),
                self.frontier() == old(self).frontier(),
                self.pending_outputs() == old(self).pending_outputs(),
                self.roots() == old(self).roots(),
                self.rule() == old(self).rule(),
                self.emitted() == old(self).emitted(),
                limit <= pull_limit,
                pull_limit == 0 ==> self.level_models() == old(self).level_models()
                    && self.fillings() == old(self).fillings() && self.root_cursor() == old(
                    self,
                ).root_cursor(),
                spent(old(self).level_models()[k as int]) ==> self.level_models() == old(
                    self,
                ).level_models() && self.fillings() == old(self).fillings() && self.root_cursor()
                    == old(self).root_cursor(),
                crate::reader::prepare_spec(
                    old(self).level_models()[k as int],
                    pull_limit as nat,
                ).1 is Some ==> self.level_models() == old(self).level_models() && self.fillings()
                    == old(self).fillings() && self.root_cursor() == old(self).root_cursor()
                    && limit == pull_limit && fuel == usize::MAX,
            decreases fuel,
        {
            if fuel == 0 {
                return None;
            }
            fuel = fuel - 1;
            let before = self.levels[k].reader.num_pulled();
            let ghost pre = self.levels@[k as int].reader@;
            let ghost pre_models_at = self.level_models();
            let ghost pre_fillings_at = self.fillings();
            let lv = &mut self.levels[k];
            let got = lv.reader.prepare_tagged(limit);
            proof {
                crate::reader::lemma_prepare_pull_bound(pre, limit as nat);
            }
            if let Some(p) = got {
                proof {
                    assert(self.level_models() =~= pre_models_at.update(
                        k as int,
                        crate::reader::prepare_spec(pre, limit as nat).0,
                    ));
                    assert(self.fillings() =~= pre_fillings_at);
                }
                return Some(p);
            }
            let after = self.levels[k].reader.num_pulled();
            limit = limit - (after - before);
            if self.levels[k].reader.is_closed() {
                return None;
            }
            if self.levels[k].reader.has_pending_pairs() {
                // The budget, not the bundle, stopped the speculative read.
                return None;
            }
            if limit == 0 {
                return None;
            }
            self.refill(k);
        }
    }

    /// Reorders a value just obtained from `level` (out of the bundle pair
    /// with one-based index `tag`) into depth-first position, exactly as
    /// `reconstruct_steps` says: every value the levels above handed out
    /// unprepared ahead of this one is reclaimed and emitted first, in
    /// reclaim order; the first value due is returned and the rest join the
    /// displacement queue.
    fn output(&mut self, level: usize, value: i64, tag: usize) -> (r: i64)
        requires
            old(self).wf(),
            level < old(self).levels@.len(),
        ensures
            final(self).wf(),
            final(self).depth() == old(self).depth(),
            final(self).frontier() == old(self).frontier(),
            final(self).roots() == old(self).roots(),
            final(self).root_cursor() == old(self).root_cursor(),
            final(self).rule() == old(self).rule(),
            final(self).fillings() == old(self).fillings(),
            final(self).emitted() == old(self).emitted(),
            ({
                let stepped = reconstruct_steps(
                    old(self).level_models(),
                    seq![(level as int, value, tag as int)],
                    Seq::<i64>::empty(),
                );
                &&& final(self).level_models() == stepped.0
                &&& stepped.1.len() >= 1
                &&& r == stepped.1.first()
                &&& final(self).pending_outputs() == old(self).pending_outputs()
                    + stepped.1.drop_first()
            }),
    {
        let ghost init_frames = seq![(level as int, value, tag as int)];
        let mut frames: Vec<(usize, i64, usize)> = Vec::new();
        let mut out: Vec<i64> = Vec::new();
        frames.push((level, value, tag));
        proof {
            assert(frames_view(frames@) =~= init_frames);
        }
        while frames.len() > 0
            invariant
                self.wf(),
                self.depth() == old(self).depth(),
                self.frontier() == old(self).frontier(),
                self.pending_outputs() == old(self).pending_outputs(),
                self.roots() == old(self).roots(),
                self.root_cursor() == old(self).root_cursor(),
                self.rule() == old(self).rule(),
                self.fillings() == old(self).fillings(),
                self.emitted() == old(self).emitted(),
                out@.len() + frames@.len() >= 1,
                forall|fi: int|
                    0 <= fi < frames@.len() ==> (#[trigger] frames@[fi]).0 < self.levels@.len(),
                reconstruct_steps(self.level_models(), frames_view(frames@), out@)
                    == reconstruct_steps(old(self).level_models(), init_frames, Seq::<i64>::empty()),
            decreases 2 * total_passed(self.level_models()) + frames@.len(),
        {
            let ghost pre_models = self.level_models();
            let ghost pre_frames = frames_view(frames@);
            let ghost pre_out = out@;
            let f = frames[frames.len() - 1];
            let l = f.0;
            let val = f.1;
            let t = f.2;
            proof {
                lemma_frames_view_drop_last(frames@);
                assert(pre_frames.last() == (l as int, val, t as int));
            }
            let mut reclaimed: Option<(i64, usize)> = None;
            if l > 0 && self.levels[l - 1].reader.emitted_below(t) {
                let ghost pre_m = self.levels@[l - 1].reader@;
                let lv = &mut self.levels[l - 1];
                reclaimed = lv.reader.pop_passed_tagged();
                proof {
                    assert(self.level_models() =~= pre_models.update(
                        l - 1,
                        pop_passed_spec(pre_m).0,
                    ));
                    assert(self.fillings() =~= old(self).fillings());
                }
            }
            let ghost fr_before = frames@;
            match reclaimed {
                Some(q) => {
                    frames.push((l - 1, q.0, q.1));
                    proof {
                        lemma_frames_view_push(fr_before, frames@.last());
                        assert(frames@ == fr_before.push(frames@.last()));
                        lemma_total_passed_update(
                            pre_models,
                            l - 1,
                            pop_passed_spec(pre_models[l - 1]).0,
                        );
                        assert(reconstruct_steps(self.level_models(), frames_view(frames@), out@)
                            == reconstruct_steps(pre_models, pre_frames, pre_out));
                    }
                },
                None => {
                    out.push(val);
                    let _ = frames.pop();
                    proof {
                        assert(self.level_models() =~= pre_models);
                        assert(frames_view(frames@) =~= pre_frames.drop_last());
                        assert(reconstruct_steps(self.level_models(), frames_view(frames@), out@)
                            == reconstruct_steps(pre_models, pre_frames, pre_out));
                    }
                },
            }
        }
        proof {
            assert(frames_view(frames@) =~= Seq::<(int, i64, int)>::empty());
            assert(reconstruct_steps(self.level_models(), frames_view(frames@), out@)
                == (self.level_models(), out@));
        }
        let r = out[0];
        let ghost pre_queue = self.queue@;
        let mut i: usize = 1;
        while i < out.len()
            invariant
                self.wf(),
                self.depth() == old(self).depth(),
                self.frontier() == old(self).frontier(),
                self.roots() == old(self).roots(),
                self.root_cursor() == old(self).root_cursor(),
                self.rule() == old(self).rule(),
                self.fillings() == old(self).fillings(),
                self.emitted() == old(self).emitted(),
                self.level_models() == reconstruct_steps(
                    old(self).level_models(),
                    init_frames,
                    Seq::<i64>::empty(),
                ).0,
                1 <= i <= out@.len(),
                out@ == reconstruct_steps(
                    old(self).level_models(),
                    init_frames,
                    Seq::<i64>::empty(),
                ).1,
                self.queue@ == pre_queue + out@.subrange(1, i as int),
            decreases out@.len() - i,
        {
            let v = out[i];
            self.queue.push(v);
            i = i + 1;
            proof {
                assert(self.queue@ =~= pre_queue + out@.subrange(1, i as int));
            }
        }
        proof {
            assert(out@.subrange(1, out@.len() as int) =~= out@.drop_first());
            assert(self.queue@ =~= pre_queue + out@.subrange(1, i as int));
        }
        r
    }

    /// The next value of the traversal in depth-first order, or nothing once
    /// the whole tree has been walked.  A displaced value is owed first; then
    /// the frontier level is extended and probed with a pull budget of one
    /// (one parent is staged above it; at the root level every parent is a
    /// root value, so no budget is needed there); on failure the driver walks
    /// upward with a budget of zero and resumes below the first level that
    /// yields a value.  Once nothing comes back, the root level is spent and
    /// the traversal is finished: no call will ever yield a value again.
    pub fn next(&mut self) -> (r: Option<i64>)
        requires
            old(self).wf(),
        ensures
            final(self).wf(),
            final(self).roots() == old(self).roots(),
            final(self).rule() == old(self).rule(),
            old(self).depth() <= final(self).depth(),
            old(self).pending_outputs().len() > 0 ==> r == Some(old(self).pending_outputs().first())
                && final(self).pending_outputs() == old(self).pending_outputs().drop_first()
                && final(self).depth() == old(self).depth()
                && final(self).frontier() == old(self).frontier()
                && final(self).level_models() == old(self).level_models()
                && final(self).fillings() == old(self).fillings()
                && final(self).root_cursor() == old(self).root_cursor(),
            old(self).pending_outputs().len() == 0 ==> final(self).depth() == old(self).depth() + (
                if old(self).frontier() == old(self).depth() {
                    1int
                } else {
                    0int
                }
            ),
            old(self).pending_outputs().len() == 0 && r is Some ==> 1 <= final(self).frontier()
                <= final(self).depth() && (final(self).frontier() == old(self).frontier() + 1 || (1
                <= final(self).frontier() <= old(self).frontier())),
            ({
                let lvl = old(self).frontier();
                let budget: nat = if lvl == 0 {
                    old(self).level_models()[0].pending.len()
                } else {
                    1nat
                };
                (old(self).pending_outputs().len() == 0 && lvl < old(self).depth()
                    && crate::reader::prepare_spec(old(self).level_models()[lvl], budget).1
                    is Some) ==> ({
                    let stepped = crate::reader::prepare_spec(
                        old(self).level_models()[lvl],
                        budget,
                    );
                    let rec = reconstruct_steps(
                        old(self).level_models().update(lvl, stepped.0),
                        seq![(lvl, stepped.1.unwrap().0, stepped.1.unwrap().1)],
                        Seq::<i64>::empty(),
                    );
                    &&& r == Some(rec.1.first())
                    &&& final(self).level_models() == rec.0
                    &&& final(self).frontier() == lvl + 1
                    &&& final(self).pending_outputs() == rec.1.drop_first()
                })
            }),
            r matches Some(v) ==> final(self).emitted() == old(self).emitted().push(v),
            r is None ==> final(self).emitted() == old(self).emitted(),
            r is None ==> final(self).finished(),
            old(self).finished() ==> r is None && final(self).finished(),
    {
        if self.queue.len() > 0 {
            let v = self.queue.remove(0);
            proof {
                assert(self.queue@ =~= old(self).queue@.drop_first());
            }
            self.trace = Ghost(self.trace@.push(v));
            return Some(v);
        }
        if self.next_from == self.levels.len() {
            self.extend();
        }
        let got = if self.next_from == 0 {
            self.prepare_root()
        } else {
            self.prepare_at(self.next_from, 1)
        };
        if let Some(p) = got {
            let n = self.levels.len();
            proof {
                assert(self.next_from < n);
            }
            self.next_from = self.next_from + 1;
            let r = self.output(self.next_from - 1, p.0, p.1);
            self.trace = Ghost(self.trace@.push(r));
            return Some(r);
        }
        while self.next_from > 0
            invariant
                self.wf(),
                self.pending_outputs() == old(self).pending_outputs(),
                old(self).pending_outputs().len() == 0,
                self.next_from as int <= old(self).frontier(),
                self.roots() == old(self).roots(),
                self.rule() == old(self).rule(),
                self.depth() == old(self).depth() + (
                    if old(self).frontier() == old(self).depth() {
                        1int
                    } else {
                        0int
                    }
                ),
                self.emitted() == old(self).emitted(),
                !(old(self).frontier() < old(self).depth() && crate::reader::prepare_spec(
                    old(self).level_models()[old(self).frontier()],
                    if old(self).frontier() == 0 {
                        old(self).level_models()[0].pending.len()
                    } else {
                        1nat
                    },
                ).1 is Some),
                self.next_from == 0 ==> spent(self.level_models()[0]),
                old(self).finished() ==> self.next_from == 0
                    && self.level_models() == old(self).level_models(),
            decreases self.next_from,
        {
            let got = if self.next_from == 1 {
                self.prepare_root()
            } else {
                self.prepare_at(self.next_from - 1, 0)
            };
            if let Some(p) = got {
                let r = self.output(self.next_from - 1, p.0, p.1);
                self.trace = Ghost(self.trace@.push(r));
                return Some(r);
            }
            self.next_from = self.next_from - 1;
        }
        None
    }
}

} // verus!
