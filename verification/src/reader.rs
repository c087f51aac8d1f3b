//! Demand-driven flattening of a bundle with bounded look-ahead.
//!
//! A bundle is an ordered sequence of pairs `(parent, children)`.  The
//! `BundleReader` flattens the children of the pairs into one stream and
//! serves it through two distinct interfaces:
//!
//! * `consume` is ordinary consumption: it hands out the next value of the
//!   stream.  A value obtained this way without having been announced by a
//!   speculative read is recorded as *passed unprepared*, so that a caller
//!   that needed it earlier can reclaim it.
//! * `prepare` is speculative consumption with a bounded pull budget: the
//!   value it hands out is queued as *prepared* and is guaranteed to be the
//!   next value that `consume` returns.
//!
//! The reader can be built over a complete bundle, or grown incrementally
//! with `append_pairs` until `close` marks the bundle complete.

use vstd::prelude::*;

verus! {

/// Mathematical state of a `BundleReader`.
#[verifier::ext_equal]
pub ghost struct ReaderModel {
    /// Values handed out by speculative reads, owed (in order) to ordinary
    /// consumption.
    pub prepared: Seq<i64>,
    /// Values handed out by ordinary consumption without a prior speculative
    /// read, each with the one-based index of the bundle pair it came from;
    /// owed (in order) to reclaiming.
    pub passed: Seq<(i64, int)>,
    /// What remains of the children of the pair installed last.
    pub buffer: Seq<i64>,
    /// Bundle pairs not yet installed.
    pub pending: Seq<(i64, Seq<i64>)>,
    /// How many pairs have been installed so far.
    pub pulled: int,
    /// How many values have been handed to the speculating consumer, whether
    /// freshly prepared or reclaimed.
    pub emitted: int,
    /// Whether the bundle is complete, so that no pair will ever be appended.
    pub closed: bool,
}

/// One step of ordinary consumption: a prepared value first, else the next
/// buffered value (recorded as passed unprepared), else the next pair is
/// installed and the step retried; absence of a value once nothing is left.
pub open spec fn consume_spec(m: ReaderModel) -> (ReaderModel, Option<i64>)
    decreases m.pending.len(),
{
    if m.prepared.len() > 0 {
        (ReaderModel { prepared: m.prepared.drop_first(), ..m }, Some(m.prepared.first()))
    } else if m.buffer.len() > 0 {
        (
            ReaderModel {
                buffer: m.buffer.drop_first(),
                passed: m.passed.push((m.buffer.first(), m.pulled)),
                ..m
            },
            Some(m.buffer.first()),
        )
    } else if m.pending.len() > 0 {
        consume_spec(
            ReaderModel {
                buffer: m.pending.first().1,
                pending: m.pending.drop_first(),
                pulled: m.pulled + 1,
                ..m
            },
        )
    } else {
        (m, None)
    }
}

/// One step of speculative consumption with pull budget `limit`: a passed
/// unprepared value is reclaimed first, else the next buffered value is
/// handed out and queued as prepared; a new pair is installed only while the
/// budget lasts.  The value comes with the one-based index of its pair.
pub open spec fn prepare_spec(m: ReaderModel, limit: nat) -> (ReaderModel, Option<(i64, int)>)
    decreases limit,
{
    if m.passed.len() > 0 {
        (
            ReaderModel { passed: m.passed.drop_first(), emitted: m.emitted + 1, ..m },
            Some(m.passed.first()),
        )
    } else if m.buffer.len() > 0 {
        (
            ReaderModel {
                buffer: m.buffer.drop_first(),
                prepared: m.prepared.push(m.buffer.first()),
                emitted: m.emitted + 1,
                ..m
            },
            Some((m.buffer.first(), m.pulled)),
        )
    } else if limit == 0 {
        (m, None)
    } else if m.pending.len() > 0 {
        prepare_spec(
            ReaderModel {
                buffer: m.pending.first().1,
                pending: m.pending.drop_first(),
                pulled: m.pulled + 1,
                ..m
            },
            (limit - 1) as nat,
        )
    } else {
        (m, None)
    }
}

/// Reclaiming: the oldest passed unprepared value leaves the queue and counts
/// as emitted; nothing else moves.
pub open spec fn pop_passed_spec(m: ReaderModel) -> (ReaderModel, Option<(i64, int)>) {
    if m.passed.len() > 0 {
        (
            ReaderModel { passed: m.passed.drop_first(), emitted: m.emitted + 1, ..m },
            Some(m.passed.first()),
        )
    } else {
        (m, None)
    }
}

/// A reader with nothing left for ordinary consumption.
pub open spec fn drained(m: ReaderModel) -> bool {
    m.prepared.len() == 0 && m.buffer.len() == 0 && m.pending.len() == 0
}

/// A reader from which speculative consumption can never hand out another
/// value: the bundle is complete and nothing is queued, buffered or pending.
/// Only the prepared queue may still hold values, and those were all handed
/// out before.
pub open spec fn spent(m: ReaderModel) -> bool {
    m.closed && m.passed.len() == 0 && m.buffer.len() == 0 && m.pending.len() == 0
}

/// The state of a freshly opened reader: nothing seen, nothing handed out.
pub open spec fn open_empty() -> ReaderModel {
    ReaderModel {
        prepared: Seq::empty(),
        passed: Seq::empty(),
        buffer: Seq::empty(),
        pending: Seq::empty(),
        pulled: 0,
        emitted: 0,
        closed: false,
    }
}

/// The view of a bundle held as a vector of pairs.
pub open spec fn bundle_view(b: Seq<(i64, Vec<i64>)>) -> Seq<(i64, Seq<i64>)> {
    b.map_values(|p: (i64, Vec<i64>)| (p.0, p.1@))
}

/// The parent slots of a bundle, in order.
pub open spec fn parents_of(ps: Seq<(i64, Seq<i64>)>) -> Seq<i64> {
    ps.map_values(|p: (i64, Seq<i64>)| p.0)
}

/// The view of the tagged queue of passed unprepared values.
pub open spec fn tag_view(s: Seq<(i64, usize)>) -> Seq<(i64, int)> {
    s.map_values(|p: (i64, usize)| (p.0, p.1 as int))
}

/// Exhaustion is terminal.  Once a consumption step yields no value, the
/// reader holds no prepared, buffered or pending value any more, and every
/// later consumption step leaves the state unchanged and yields no value:
/// there is no resurrection.
pub proof fn lemma_exhaustion_terminal(m: ReaderModel)
    requires
        consume_spec(m).1 is None,
    ensures
        drained(consume_spec(m).0),
        consume_spec(consume_spec(m).0) == (consume_spec(m).0, Option::<i64>::None),
    decreases m.pending.len(),
{
    if m.prepared.len() == 0 && m.buffer.len() == 0 && m.pending.len() > 0 {
        lemma_exhaustion_terminal(
            ReaderModel {
                buffer: m.pending.first().1,
                pending: m.pending.drop_first(),
                pulled: m.pulled + 1,
                ..m
            },
        );
    }
}

/// A speculative read installs no more pairs than its pull budget allows.
pub proof fn lemma_prepare_pull_bound(m: ReaderModel, limit: nat)
    ensures
        m.pulled <= prepare_spec(m, limit).0.pulled,
        prepare_spec(m, limit).0.pulled <= m.pulled + limit,
    decreases limit,
{
    if m.passed.len() == 0 && m.buffer.len() == 0 && limit > 0 && m.pending.len() > 0 {
        lemma_prepare_pull_bound(
            ReaderModel {
                buffer: m.pending.first().1,
                pending: m.pending.drop_first(),
                pulled: m.pulled + 1,
                ..m
            },
            (limit - 1) as nat,
        );
    }
}

/// A speculative read whose budget covers every pending pair drains the
/// reader or yields: when it hands out no value, nothing is left for
/// speculation — no passed, buffered or pending value — and the bundle's
/// completeness is untouched.
pub proof fn lemma_prepare_drains(m: ReaderModel, limit: nat)
    requires
        limit >= m.pending.len(),
        prepare_spec(m, limit).1 is None,
    ensures
        prepare_spec(m, limit).0.passed.len() == 0,
        prepare_spec(m, limit).0.buffer.len() == 0,
        prepare_spec(m, limit).0.pending.len() == 0,
        prepare_spec(m, limit).0.closed == m.closed,
    decreases limit,
{
    if m.passed.len() == 0 && m.buffer.len() == 0 && limit > 0 && m.pending.len() > 0 {
        lemma_prepare_drains(
            ReaderModel {
                buffer: m.pending.first().1,
                pending: m.pending.drop_first(),
                pulled: m.pulled + 1,
                ..m
            },
            (limit - 1) as nat,
        );
    }
}

/// A speculative read on a reader that owes nothing yet stages its value:
/// when `prepare` hands out a fresh value, the immediately following ordinary
/// consumption is guaranteed to return that same value.
pub proof fn lemma_prepared_is_owed(m: ReaderModel, limit: nat)
    requires
        m.prepared.len() == 0,
        m.passed.len() == 0,
        prepare_spec(m, limit).1 is Some,
    ensures
        consume_spec(prepare_spec(m, limit).0).1 == Some(prepare_spec(m, limit).1.unwrap().0),
    decreases limit,
{
    if m.buffer.len() == 0 && limit > 0 && m.pending.len() > 0 {
        lemma_prepared_is_owed(
            ReaderModel {
                buffer: m.pending.first().1,
                pending: m.pending.drop_first(),
                pulled: m.pulled + 1,
                ..m
            },
            (limit - 1) as nat,
        );
    }
}

/// The sequence of values (with pair indices) handed out by `n` successive
/// reclaiming steps.
pub open spec fn reclaims(m: ReaderModel, n: nat) -> Seq<(i64, int)>
    decreases n,
{
    if n == 0 {
        Seq::empty()
    } else if m.passed.len() > 0 {
        seq![pop_passed_spec(m).1.unwrap()] + reclaims(pop_passed_spec(m).0, (n - 1) as nat)
    } else {
        Seq::empty()
    }
}

/// Reclaiming is faithful to the order in which values were passed
/// unprepared: `n` successive reclaims return exactly the first `n` queued
/// values, in queue order, each one once; no value is duplicated or returned
/// again.
pub proof fn lemma_reclaim_order(m: ReaderModel, n: nat)
    ensures
        reclaims(m, n) == (
            if n <= m.passed.len() {
                m.passed.take(n as int)
            } else {
                m.passed
            }
        ),
    decreases n,
{
    if n > 0 && m.passed.len() > 0 {
        let m2 = pop_passed_spec(m).0;
        lemma_reclaim_order(m2, (n - 1) as nat);
        if n <= m.passed.len() {
            assert(seq![m.passed.first()] + m.passed.drop_first().take(n - 1)
                =~= m.passed.take(n as int));
        } else {
            assert(seq![m.passed.first()] + m.passed.drop_first() =~= m.passed);
        }
    } else if n == 0 {
        assert(m.passed.take(0) =~= Seq::<(i64, int)>::empty());
    } else {
        assert(reclaims(m, n) =~= m.passed);
    }
}

proof fn lemma_skip_first<T>(s: Seq<T>, h: int)
    requires
        0 <= h < s.len(),
    ensures
        s.skip(h).first() == s[h],
        s.skip(h).drop_first() == s.skip(h + 1),
{
    assert(s.skip(h).drop_first() =~= s.skip(h + 1));
}

proof fn lemma_push_skip<T>(s: Seq<T>, x: T, h: int)
    requires
        0 <= h <= s.len(),
    ensures
        s.push(x).skip(h) == s.skip(h).push(x),
{
    assert(s.push(x).skip(h) =~= s.skip(h).push(x));
}

proof fn lemma_tag_view_push(s: Seq<(i64, usize)>, x: (i64, usize))
    ensures
        tag_view(s.push(x)) == tag_view(s).push((x.0, x.1 as int)),
{
    assert(tag_view(s.push(x)) =~= tag_view(s).push((x.0, x.1 as int)));
}

/// Flattens a bundle (as the public `flat` does) while supporting bounded,
/// look-ahead-safe speculative reads.
pub struct BundleReader {
    /// All pairs seen so far; pairs are only ever appended.
    pairs: Vec<(i64, Vec<i64>)>,
    /// How many pairs have been installed as the children buffer.
    pairs_idx: usize,
    /// Position inside the children of the pair installed last.
    buf_idx: usize,
    /// Values owed to ordinary consumption; grows only, served from `prep_head`.
    prepared: Vec<i64>,
    prep_head: usize,
    /// Values passed unprepared, tagged with the one-based index of their
    /// pair; grows only, served from `passed_head`.
    passed: Vec<(i64, usize)>,
    passed_head: usize,
    /// Whether the bundle is complete.
    closed: bool,
}

impl View for BundleReader {
    type V = ReaderModel;

    closed spec fn view(&self) -> ReaderModel {
        ReaderModel {
            prepared: self.prepared@.skip(self.prep_head as int),
            passed: tag_view(self.passed@).skip(self.passed_head as int),
            buffer: if self.pairs_idx == 0 {
                Seq::empty()
            } else {
                self.pairs@[self.pairs_idx - 1].1@.skip(self.buf_idx as int)
            },
            pending: bundle_view(self.pairs@).skip(self.pairs_idx as int),
            pulled: self.pairs_idx as int,
            emitted: self.prepared@.len() + self.passed_head,
            closed: self.closed,
        }
    }
}

impl BundleReader {
    /// Structural soundness of the cursor positions.
    pub closed spec fn wf(&self) -> bool {
        &&& self.prep_head <= self.prepared@.len()
        &&& self.passed_head <= self.passed@.len()
        &&& self.pairs_idx <= self.pairs@.len()
        &&& if self.pairs_idx == 0 {
            self.buf_idx == 0
        } else {
            self.buf_idx <= self.pairs@[self.pairs_idx - 1].1@.len()
        }
    }

    /// Every parent whose pair entered this bundle, oldest first, installed
    /// or not.  Only `append_pairs` (and construction) extends it: it records
    /// which parents were handed to generation, and in what order.
    pub closed spec fn parents_log(&self) -> Seq<i64> {
        self.pairs@.map_values(|p: (i64, Vec<i64>)| p.0)
    }

    /// Every value ever passed unprepared, with the one-based index of its
    /// bundle pair, oldest first.  Entries are only ever appended, and only
    /// by ordinary consumption: this log is where reclaimed values come from.
    pub closed spec fn passed_log(&self) -> Seq<(i64, int)> {
        tag_view(self.passed@)
    }

    /// How many log entries have been reclaimed.  The cursor only grows, so
    /// an entry is served at most once, and entries are served in log order.
    pub closed spec fn reclaim_cursor(&self) -> int {
        self.passed_head as int
    }

    /// Provenance of reclaiming: the queue of values still owed to reclaiming
    /// is exactly the unserved suffix of the passed-unprepared log.  Together
    /// with the per-call contracts (consumption only appends to the log;
    /// reclaiming only advances the cursor), every value a reclaim returns
    /// was passed unprepared by an earlier ordinary consumption, is returned
    /// in that order, and is never returned twice.
    pub proof fn lemma_reclaim_provenance(&self)
        requires
            self.wf(),
        ensures
            0 <= self.reclaim_cursor() <= self.passed_log().len(),
            self@.passed == self.passed_log().skip(self.reclaim_cursor()),
    {
    }

    /// A reader over a complete bundle.
    pub fn new(bundle: Vec<(i64, Vec<i64>)>) -> (r: Self)
        ensures
            r.wf(),
            r@ == (ReaderModel {
                prepared: Seq::<i64>::empty(),
                passed: Seq::<(i64, int)>::empty(),
                buffer: Seq::<i64>::empty(),
                pending: bundle_view(bundle@),
                pulled: 0,
                emitted: 0,
                closed: true,
            }),
            r.passed_log().len() == 0,
            r.reclaim_cursor() == 0,
            r.parents_log() == parents_of(bundle_view(bundle@)),
    {
        let r = BundleReader {
            pairs: bundle,
            pairs_idx: 0,
            buf_idx: 0,
            prepared: Vec::new(),
            prep_head: 0,
            passed: Vec::new(),
            passed_head: 0,
            closed: true,
        };
        proof {
            assert(r@.pending =~= bundle_view(r.pairs@));
            assert(r.parents_log() =~= parents_of(bundle_view(r.pairs@)));
            assert(r@ =~= ReaderModel {
                prepared: Seq::<i64>::empty(),
                passed: Seq::<(i64, int)>::empty(),
                buffer: Seq::<i64>::empty(),
                pending: bundle_view(r.pairs@),
                pulled: 0,
                emitted: 0,
                closed: true,
            });
        }
        r
    }

    /// A reader over a bundle that is still being produced: pairs arrive
    /// through `append_pairs` until `close` is called.
    pub fn new_open() -> (r: Self)
        ensures
            r.wf(),
            r@ == open_empty(),
            r.passed_log().len() == 0,
            r.reclaim_cursor() == 0,
            r.parents_log().len() == 0,
    {
        let r = BundleReader {
            pairs: Vec::new(),
            pairs_idx: 0,
            buf_idx: 0,
            prepared: Vec::new(),
            prep_head: 0,
            passed: Vec::new(),
            passed_head: 0,
            closed: false,
        };
        proof {
            assert(r@.pending =~= Seq::<(i64, Seq<i64>)>::empty());
            assert(r@ =~= open_empty());
        }
        r
    }

    /// Appends freshly produced pairs to a bundle that is not complete yet.
    pub fn append_pairs(&mut self, more: Vec<(i64, Vec<i64>)>)
        requires
            old(self).wf(),
            !old(self)@.closed,
        ensures
            final(self).wf(),
            final(self)@ == (ReaderModel { pending: old(self)@.pending + bundle_view(more@), ..old(self)@ }),
            final(self).passed_log() == old(self).passed_log(),
            final(self).reclaim_cursor() == old(self).reclaim_cursor(),
            final(self).parents_log() == old(self).parents_log() + parents_of(bundle_view(more@)),
    {
        let ghost pre = self@;
        let ghost prepairs = self.pairs@;
        let ghost morev = more@;
        proof {
            lemma_append_pending(prepairs, morev, self.pairs_idx as int);
        }
        let mut tail = more;
        self.pairs.append(&mut tail);
        proof {
            if self.pairs_idx > 0 {
                assert(self.pairs@[self.pairs_idx - 1] == prepairs[self.pairs_idx - 1]);
            }
            assert(self@ =~= ReaderModel { pending: pre.pending + bundle_view(morev), ..pre });
        }
    }

    /// Marks the bundle complete: no pair will be appended any more.
    pub fn close(&mut self)
        requires
            old(self).wf(),
        ensures
            final(self).wf(),
            final(self)@ == (ReaderModel { closed: true, ..old(self)@ }),
            final(self).passed_log() == old(self).passed_log(),
            final(self).reclaim_cursor() == old(self).reclaim_cursor(),
            final(self).parents_log() == old(self).parents_log(),
    {
        self.closed = true;
        proof {
            assert(self@ =~= ReaderModel { closed: true, ..old(self)@ });
        }
    }

    /// Whether the bundle is complete.
    pub fn is_closed(&self) -> (r: bool)
        ensures
            r == self@.closed,
    {
        self.closed
    }

    /// Whether some appended pair has not been installed yet.
    pub fn has_pending_pairs(&self) -> (r: bool)
        requires
            self.wf(),
        ensures
            r == (self@.pending.len() > 0),
    {
        self.pairs_idx < self.pairs.len()
    }

    /// How many appended pairs have not been installed yet.
    pub fn pending_count(&self) -> (n: usize)
        requires
            self.wf(),
        ensures
            n as int == self@.pending.len(),
    {
        self.pairs.len() - self.pairs_idx
    }

    /// How many pairs have been installed so far.
    pub fn num_pulled(&self) -> (r: usize)
        ensures
            r as int == self@.pulled,
    {
        self.pairs_idx
    }

    /// Whether fewer than `t` values have been emitted to the speculating
    /// consumer so far.
    pub fn emitted_below(&self, t: usize) -> (r: bool)
        requires
            self.wf(),
        ensures
            r == (self@.emitted < t as int),
    {
        t > self.prepared.len() && t - self.prepared.len() > self.passed_head
    }

    /// Ordinary consumption; see `consume_spec` for the exact behaviour.
    pub fn consume(&mut self) -> (r: Option<i64>)
        requires
            old(self).wf(),
        ensures
            final(self).wf(),
            final(self)@ == consume_spec(old(self)@).0,
            r == consume_spec(old(self)@).1,
            final(self).reclaim_cursor() == old(self).reclaim_cursor(),
            final(self).passed_log() == old(self).passed_log() || final(self).passed_log() == old(
                self,
            ).passed_log().push((r.unwrap(), final(self)@.pulled)),
            final(self).parents_log() == old(self).parents_log(),
    {
        loop
            invariant
                self.wf(),
                consume_spec(self@) == consume_spec(old(self)@),
                self.passed@ == old(self).passed@,
                self.passed_head == old(self).passed_head,
                self.pairs@ == old(self).pairs@,
            decreases self.pairs@.len() - self.pairs_idx,
        {
            let ghost pre = self@;
            if self.prep_head < self.prepared.len() {
                let v = self.prepared[self.prep_head];
                self.prep_head = self.prep_head + 1;
                proof {
                    lemma_skip_first(self.prepared@, self.prep_head - 1);
                    assert(self@ =~= ReaderModel { prepared: pre.prepared.drop_first(), ..pre });
                }
                return Some(v);
            }
            if self.pairs_idx > 0 && self.buf_idx < self.pairs[self.pairs_idx - 1].1.len() {
                let v = self.pairs[self.pairs_idx - 1].1[self.buf_idx];
                let ghost pv = self.passed@;
                self.buf_idx = self.buf_idx + 1;
                self.passed.push((v, self.pairs_idx));
                proof {
                    lemma_skip_first(self.pairs@[self.pairs_idx - 1].1@, self.buf_idx - 1);
                    lemma_tag_view_push(pv, (v, self.pairs_idx));
                    lemma_push_skip(
                        tag_view(pv),
                        (v, self.pairs_idx as int),
                        self.passed_head as int,
                    );
                    assert(self@ =~= ReaderModel {
                        buffer: pre.buffer.drop_first(),
                        passed: pre.passed.push((pre.buffer.first(), pre.pulled)),
                        ..pre
                    });
                }
                return Some(v);
            }
            if self.pairs_idx < self.pairs.len() {
                self.pairs_idx = self.pairs_idx + 1;
                self.buf_idx = 0;
                proof {
                    lemma_skip_first(bundle_view(self.pairs@), self.pairs_idx - 1);
                    assert(self@ =~= ReaderModel {
                        buffer: pre.pending.first().1,
                        pending: pre.pending.drop_first(),
                        pulled: pre.pulled + 1,
                        ..pre
                    });
                }
                continue;
            }
            return None;
        }
    }

    /// Speculative consumption with its pair index; see `prepare_spec`.
    pub fn prepare_tagged(&mut self, pull_limit: usize) -> (r: Option<(i64, usize)>)
        requires
            old(self).wf(),
        ensures
            final(self).wf(),
            final(self)@ == prepare_spec(old(self)@, pull_limit as nat).0,
            final(self).passed_log() == old(self).passed_log(),
            final(self).parents_log() == old(self).parents_log(),
            final(self).reclaim_cursor() == old(self).reclaim_cursor() + old(self)@.passed.len()
                - final(self)@.passed.len(),
            match (r, prepare_spec(old(self)@, pull_limit as nat).1) {
                (Some(p), Some(q)) => p.0 == q.0 && p.1 as int == q.1,
                (None, None) => true,
                _ => false,
            },
    {
        let mut limit = pull_limit;
        loop
            invariant
                self.wf(),
                limit <= pull_limit,
                prepare_spec(self@, limit as nat) == prepare_spec(old(self)@, pull_limit as nat),
                self.passed@ == old(self).passed@,
                self.passed_head == old(self).passed_head,
                self.pairs@ == old(self).pairs@,
            decreases self.pairs@.len() - self.pairs_idx,
        {
            let ghost pre = self@;
            if self.passed_head < self.passed.len() {
                let p = self.passed[self.passed_head];
                self.passed_head = self.passed_head + 1;
                proof {
                    lemma_skip_first(tag_view(self.passed@), self.passed_head - 1);
                    assert(tag_view(self.passed@)[self.passed_head - 1]
                        == (p.0, p.1 as int));
                    assert(self@ =~= ReaderModel {
                        passed: pre.passed.drop_first(),
                        emitted: pre.emitted + 1,
                        ..pre
                    });
                }
                return Some(p);
            }
            if self.pairs_idx > 0 && self.buf_idx < self.pairs[self.pairs_idx - 1].1.len() {
                let v = self.pairs[self.pairs_idx - 1].1[self.buf_idx];
                let tag = self.pairs_idx;
                let ghost qv = self.prepared@;
                self.buf_idx = self.buf_idx + 1;
                self.prepared.push(v);
                proof {
                    lemma_skip_first(self.pairs@[self.pairs_idx - 1].1@, self.buf_idx - 1);
                    lemma_push_skip(qv, v, self.prep_head as int);
                    assert(self@ =~= ReaderModel {
                        buffer: pre.buffer.drop_first(),
                        prepared: pre.prepared.push(pre.buffer.first()),
                        emitted: pre.emitted + 1,
                        ..pre
                    });
                }
                return Some((v, tag));
            }
            if limit == 0 {
                return None;
            }
            if self.pairs_idx < self.pairs.len() {
                self.pairs_idx = self.pairs_idx + 1;
                self.buf_idx = 0;
                limit = limit - 1;
                proof {
                    lemma_skip_first(bundle_view(self.pairs@), self.pairs_idx - 1);
                    assert(self@ =~= ReaderModel {
                        buffer: pre.pending.first().1,
                        pending: pre.pending.drop_first(),
                        pulled: pre.pulled + 1,
                        ..pre
                    });
                }
                continue;
            }
            return None;
        }
    }

    /// Speculative consumption, dropping the pair index; see `prepare_spec`.
    pub fn prepare(&mut self, pull_limit: usize) -> (r: Option<i64>)
        requires
            old(self).wf(),
        ensures
            final(self).wf(),
            final(self)@ == prepare_spec(old(self)@, pull_limit as nat).0,
            final(self).passed_log() == old(self).passed_log(),
            final(self).parents_log() == old(self).parents_log(),
            final(self).reclaim_cursor() == old(self).reclaim_cursor() + old(self)@.passed.len()
                - final(self)@.passed.len(),
            match (r, prepare_spec(old(self)@, pull_limit as nat).1) {
                (Some(v), Some(q)) => v == q.0,
                (None, None) => true,
                _ => false,
            },
    {
        match self.prepare_tagged(pull_limit) {
            Some(p) => Some(p.0),
            None => None,
        }
    }

    /// Reclaiming with the pair index; see `pop_passed_spec`.
    pub fn pop_passed_tagged(&mut self) -> (r: Option<(i64, usize)>)
        requires
            old(self).wf(),
        ensures
            final(self).wf(),
            final(self)@ == pop_passed_spec(old(self)@).0,
            final(self).passed_log() == old(self).passed_log(),
            final(self).parents_log() == old(self).parents_log(),
            final(self).reclaim_cursor() == old(self).reclaim_cursor() + old(self)@.passed.len()
                - final(self)@.passed.len(),
            match (r, pop_passed_spec(old(self)@).1) {
                (Some(p), Some(q)) => p.0 == q.0 && p.1 as int == q.1,
                (None, None) => true,
                _ => false,
            },
    {
        let ghost pre = self@;
        if self.passed_head < self.passed.len() {
            let p = self.passed[self.passed_head];
            self.passed_head = self.passed_head + 1;
            proof {
                lemma_skip_first(tag_view(self.passed@), self.passed_head - 1);
                assert(tag_view(self.passed@)[self.passed_head - 1] == (p.0, p.1 as int));
                assert(self@ =~= ReaderModel {
                    passed: pre.passed.drop_first(),
                    emitted: pre.emitted + 1,
                    ..pre
                });
            }
            Some(p)
        } else {
            None
        }
    }

    /// Reclaiming the oldest passed unprepared value; see `pop_passed_spec`.
    pub fn pop_passed_unprepared(&mut self) -> (r: Option<i64>)
        requires
            old(self).wf(),
        ensures
            final(self).wf(),
            final(self)@ == pop_passed_spec(old(self)@).0,
            final(self).passed_log() == old(self).passed_log(),
            final(self).parents_log() == old(self).parents_log(),
            final(self).reclaim_cursor() == old(self).reclaim_cursor() + old(self)@.passed.len()
                - final(self)@.passed.len(),
            match (r, pop_passed_spec(old(self)@).1) {
                (Some(v), Some(q)) => v == q.0,
                (None, None) => true,
                _ => false,
            },
    {
        match self.pop_passed_tagged() {
            Some(p) => Some(p.0),
            None => None,
        }
    }
}

proof fn lemma_append_pending(pairs: Seq<(i64, Vec<i64>)>, more: Seq<(i64, Vec<i64>)>, h: int)
    requires
        0 <= h <= pairs.len(),
    ensures
        bundle_view(pairs + more).skip(h) == bundle_view(pairs).skip(h) + bundle_view(more),
{
    assert(bundle_view(pairs + more).skip(h)
        =~= bundle_view(pairs).skip(h) + bundle_view(more));
}

/// Flattens a complete bundle into the sequence of all children, parent by
/// parent, in order; the parent slots are only traceability and are dropped.
pub open spec fn flat_spec(ps: Seq<(i64, Seq<i64>)>) -> Seq<i64>
    decreases ps.len(),
{
    if ps.len() == 0 {
        Seq::empty()
    } else {
        ps.first().1 + flat_spec(ps.drop_first())
    }
}

/// Flattens a bundle eagerly: the concatenation of all children sequences.
pub fn flat(b: Vec<(i64, Vec<i64>)>) -> (r: Vec<i64>)
    ensures
        r@ == flat_spec(bundle_view(b@)),
{
    let mut r: Vec<i64> = Vec::new();
    let mut i: usize = 0;
    while i < b.len()
        invariant
            i <= b@.len(),
            r@ == flat_spec(bundle_view(b@).take(i as int)),
        decreases b@.len() - i,
    {
        let mut j: usize = 0;
        while j < b[i].1.len()
            invariant
                i < b@.len(),
                j <= b@[i as int].1@.len(),
                r@ == flat_spec(bundle_view(b@).take(i as int)) + b@[i as int].1@.take(j as int),
            decreases b@[i as int].1@.len() - j,
        {
            let v = b[i].1[j];
            r.push(v);
            j = j + 1;
            proof {
                assert(b@[i as int].1@.take(j as int)
                    =~= b@[i as int].1@.take(j - 1).push(v));
            }
        }
        proof {
            lemma_flat_take_step(bundle_view(b@), i as int);
            assert(b@[i as int].1@.take(j as int) =~= b@[i as int].1@);
        }
        i = i + 1;
    }
    proof {
        assert(bundle_view(b@).take(i as int) =~= bundle_view(b@));
    }
    r
}

proof fn lemma_flat_take_step(ps: Seq<(i64, Seq<i64>)>, i: int)
    requires
        0 <= i < ps.len(),
    ensures
        flat_spec(ps.take(i + 1)) == flat_spec(ps.take(i)) + ps[i].1,
    decreases i,
{
    if i == 0 {
        assert(ps.take(1).first() == ps[0]);
        assert(ps.take(1).drop_first() =~= Seq::<(i64, Seq<i64>)>::empty());
        assert(ps.take(0) =~= Seq::<(i64, Seq<i64>)>::empty());
        assert(flat_spec(Seq::<(i64, Seq<i64>)>::empty()) == Seq::<i64>::empty());
        assert(flat_spec(ps.take(1)) == ps.take(1).first().1 + flat_spec(ps.take(1).drop_first()));
        assert(flat_spec(ps.take(0)) + ps[0].1 =~= ps[0].1);
        assert(flat_spec(ps.take(1)) =~= ps[0].1 + Seq::<i64>::empty());
        assert(ps[0].1 + Seq::<i64>::empty() =~= ps[0].1);
    } else {
        lemma_flat_take_step(ps.drop_first(), i - 1);
        assert(ps.take(i + 1).first() == ps[0]);
        assert(ps.take(i + 1).drop_first() =~= ps.drop_first().take(i));
        assert(ps.take(i).first() == ps[0]);
        assert(ps.take(i).drop_first() =~= ps.drop_first().take(i - 1));
        assert(ps[0].1 + (flat_spec(ps.drop_first().take(i - 1)) + ps.drop_first()[i - 1].1)
            =~= (ps[0].1 + flat_spec(ps.drop_first().take(i - 1))) + ps[i].1);
    }
}

} // verus!
