use vstd::prelude::*;
use crate::coalesce::runs;
use crate::error::MergeError;
use crate::mapping::{Entry, Mapping, end_of};
use crate::mapping_iterator::{Leaf, entries_of};
use crate::overlay::{Move, decide, merged, total_len};
use crate::stream::{
    MappingStream, StreamView, lemma_head_is_first, lemma_skip_follows_runs, lemma_stream_tame,
    lemma_stream_wf, lemma_supply_follows_rest, lemma_supply_stream_tame, rest_of,
};

verus! {

/// One of the two devices of a merge.
#[derive(Clone, Copy, Debug, PartialEq, Eq, Structural)]
pub enum Side {
    /// The device whose mappings give way.
    Base,
    /// The device whose mappings win where both map a key.
    Overlay,
}

/// What one step of the merge yields.
#[derive(Clone, Copy, Debug, PartialEq, Eq)]
pub enum Step {
    /// The next run of the merged device.
    Emit(Mapping),
    /// A covered run of the base was dropped and nothing is emitted yet.
    Skip,
    /// A head is pending: a batch of leaves has to be supplied first.
    Starved,
    /// Both devices are used up.
    End,
}

/// An end that the step computes leaves the 64-bit range: that of the
/// overlay head, or that of the base head, which is computed unless the
/// overlay head ends before the base head starts.
pub open spec fn overflowing(b: Mapping, o: Mapping) -> bool {
    end_of(o) > u64::MAX || (end_of(o) > b.0 && end_of(b) > u64::MAX)
}

/// What a step answers after a stream handed out `r`.
pub open spec fn emitted(r: Result<Option<Mapping>, MergeError>) -> Result<Step, MergeError> {
    match r {
        Ok(Some(m)) => Ok(Step::Emit(m)),
        Ok(None) => Ok(Step::End),
        Err(e) => Err(e),
    }
}

/// The state of a `RangeMergeIterator`, as contracts see it.
pub ghost struct MergeView {
    pub base: StreamView,
    pub overlay: StreamView,
}

impl MergeView {
    /// What the invariant of a merge says of its state.
    pub open spec fn wf(self) -> bool {
        self.base.wf() && self.overlay.wf()
    }

    /// The state before any leaf was supplied.
    pub open spec fn fresh(base: Seq<u64>, overlay: Seq<u64>, batch_size: nat) -> MergeView {
        MergeView {
            base: StreamView::fresh(base, batch_size),
            overlay: StreamView::fresh(overlay, batch_size),
        }
    }

    /// Both streams are sound.
    pub open spec fn sound(self) -> bool {
        self.base.sound() && self.overlay.sound()
    }

    /// The leaves `base` and `overlay` are as many as are left to supply
    /// on each side.
    pub open spec fn awaits(self, base: Seq<Leaf>, overlay: Seq<Leaf>) -> bool {
        self.base.iter.awaits(base) && self.overlay.iter.awaits(overlay)
    }

    /// The runs that the merge has yet to emit, where the leaves not yet
    /// supplied are `base` and `overlay`.
    pub open spec fn to_come(self, base: Seq<Leaf>, overlay: Seq<Leaf>) -> Seq<Mapping> {
        merged(self.base.rest(base), self.overlay.rest(overlay))
    }

    /// Both streams are tame.
    pub open spec fn tame(self, base: Seq<Leaf>, overlay: Seq<Leaf>) -> bool {
        self.base.tame(base) && self.overlay.tame(overlay)
    }

    /// The number of blocks that the two streams have yet to hand out,
    /// where the leaves not yet supplied are `base` and `overlay`.
    pub open spec fn remaining(self, base: Seq<Leaf>, overlay: Seq<Leaf>) -> nat {
        total_len(self.base.rest(base)) + total_len(self.overlay.rest(overlay))
    }

    /// The stream of a side.
    pub open spec fn stream(self, side: Side) -> StreamView {
        match side {
            Side::Base => self.base,
            Side::Overlay => self.overlay,
        }
    }

    /// The state after the batch was handed to the stream of `side`.
    pub open spec fn supply(self, side: Side, batch: Seq<Leaf>) -> (MergeView, Result<
        (),
        MergeError,
    >) {
        match side {
            Side::Base => {
                let (s, r) = self.base.supply(batch);
                (MergeView { base: s, overlay: self.overlay }, r)
            },
            Side::Overlay => {
                let (s, r) = self.overlay.supply(batch);
                (MergeView { base: self.base, overlay: s }, r)
            },
        }
    }

    /// The first `delta` keys of the base head are emitted.
    pub open spec fn take_base(self, delta: u64) -> (MergeView, Result<Step, MergeError>) {
        let (s, r) = self.base.consume(delta);
        (MergeView { base: s, overlay: self.overlay }, emitted(r))
    }

    /// The overlay head is emitted.
    pub open spec fn take_overlay(self) -> (MergeView, Result<Step, MergeError>) {
        let (s, r) = self.overlay.consume_all();
        (MergeView { base: self.base, overlay: s }, emitted(r))
    }

    /// The base head is dropped.
    pub open spec fn drop_base(self) -> (MergeView, Result<Step, MergeError>) {
        let (s, r) = self.base.skip_all();
        (
            MergeView { base: s, overlay: self.overlay },
            match r {
                Ok(_) => Ok(Step::Skip),
                Err(e) => Err(e),
            },
        )
    }

    /// One step of the merge: the state after it, and its answer.
    ///
    /// While a head is pending nothing moves. With both heads known the
    /// step fails if an end that it computes leaves the 64-bit range, and
    /// else makes the move that `decide` names. With one stream used up
    /// the head of the other is emitted.
    pub open spec fn next(self) -> (MergeView, Result<Step, MergeError>) {
        if self.base.pending() || self.overlay.pending() {
            (self, Ok(Step::Starved))
        } else {
            match (self.base.head, self.overlay.head) {
                (None, None) => (self, Ok(Step::End)),
                (Some(b), None) => self.take_base(b.2),
                (None, Some(o)) => self.take_overlay(),
                (Some(b), Some(o)) => if overflowing(b, o) {
                    (self, Err(MergeError::Overflow))
                } else {
                    match decide(b, o) {
                        Move::TakeOverlay => self.take_overlay(),
                        Move::TakeBase => self.take_base(b.2),
                        Move::TakeBasePrefix(d) => self.take_base(d),
                        Move::CutBase(d) => (MergeView {
                            base: self.base.skip(d).0,
                            overlay: self.overlay,
                        }).take_overlay(),
                        Move::DropBase => self.drop_base(),
                    }
                },
            }
        }
    }
}

/// The merge of two devices: a run at a time, the mappings of the overlay
/// laid over those of the base.
pub struct RangeMergeIterator {
    base_stream: MappingStream,
    snap_stream: MappingStream,
}

impl View for RangeMergeIterator {
    type V = MergeView;

    closed spec fn view(&self) -> MergeView {
        MergeView { base: self.base_stream@, overlay: self.snap_stream@ }
    }
}

impl RangeMergeIterator {
    /// The invariant of the merge: that of its two streams.
    pub closed spec fn wf(&self) -> bool {
        self.base_stream.wf() && self.snap_stream.wf()
    }

    /// The invariant, as far as the view shows it.
    pub proof fn lemma_wf(&self)
        requires
            self.wf(),
        ensures
            self@.wf(),
    {
        self.base_stream.lemma_wf();
        self.snap_stream.lemma_wf();
    }

    /// A merge of the device with the leaves `base_leaves` under the one
    /// with the leaves `overlay_leaves`, each read `batch_size` leaves at a
    /// time.
    pub fn new(base_leaves: Vec<u64>, overlay_leaves: Vec<u64>, batch_size: usize) -> (r: Self)
        requires
            batch_size >= 1,
        ensures
            r.wf(),
            r@ == MergeView::fresh(base_leaves@, overlay_leaves@, batch_size as nat),
    {
        let base_stream = MappingStream::new(base_leaves, batch_size);
        let snap_stream = MappingStream::new(overlay_leaves, batch_size);
        RangeMergeIterator { base_stream, snap_stream }
    }

    /// The addresses of the leaves that the stream of `side` needs next;
    /// empty unless its head is pending.
    pub fn wanted(&self, side: Side) -> (r: &[u64])
        requires
            self.wf(),
        ensures
            r@ == self@.stream(side).iter.wanted(),
            r@.len() <= self@.stream(side).iter.batch_size,
            r@.len() > 0 <==> self@.stream(side).pending(),
    {
        match side {
            Side::Base => self.base_stream.wanted(),
            Side::Overlay => self.snap_stream.wanted(),
        }
    }

    /// Hands the decoded leaves of the batch that `wanted` named to the
    /// stream of `side`.
    pub fn supply(&mut self, side: Side, batch: Vec<Leaf>) -> (r: Result<(), MergeError>)
        requires
            old(self).wf(),
            old(self)@.stream(side).pending(),
            batch@.len() == old(self)@.stream(side).iter.wanted().len(),
        ensures
            final(self).wf(),
            (final(self)@, r) == old(self)@.supply(side, batch@),
    {
        match side {
            Side::Base => self.base_stream.supply(batch),
            Side::Overlay => self.snap_stream.supply(batch),
        }
    }

    /// One step of the merge.
    pub fn next(&mut self) -> (r: Result<Step, MergeError>)
        requires
            old(self).wf(),
        ensures
            final(self).wf(),
            (final(self)@, r) == old(self)@.next(),
    {
        proof {
            self.lemma_wf();
        }
        if self.base_stream.wanted().len() > 0 || self.snap_stream.wanted().len() > 0 {
            return Ok(Step::Starved);
        }
        let base: Option<Mapping> = match self.base_stream.get_mapping() {
            Some(m) => Some(*m),
            None => None,
        };
        let snap: Option<Mapping> = match self.snap_stream.get_mapping() {
            Some(m) => Some(*m),
            None => None,
        };
        let taken: Result<Option<Mapping>, MergeError> = match (base, snap) {
            (None, None) => {
                return Ok(Step::End);
            },
            (Some(_), None) => self.base_stream.consume_all(),
            (None, Some(_)) => self.snap_stream.consume_all(),
            (Some(b), Some(o)) => {
                let o_end: u64 = match o.0.checked_add(o.2) {
                    Some(e) => e,
                    None => {
                        return Err(MergeError::Overflow);
                    },
                };
                if o_end <= b.0 {
                    self.snap_stream.consume_all()
                } else {
                    let b_end: u64 = match b.0.checked_add(b.2) {
                        Some(e) => e,
                        None => {
                            return Err(MergeError::Overflow);
                        },
                    };
                    if b_end <= o.0 {
                        self.base_stream.consume_all()
                    } else if b.0 < o.0 {
                        self.base_stream.consume(o.0 - b.0)
                    } else if o_end < b_end {
                        match self.base_stream.skip(o_end - b.0) {
                            Ok(_) => self.snap_stream.consume_all(),
                            Err(e) => Err(e),
                        }
                    } else {
                        return match self.base_stream.skip_all() {
                            Ok(_) => Ok(Step::Skip),
                            Err(e) => Err(e),
                        };
                    }
                }
            },
        };
        match taken {
            Ok(Some(m)) => Ok(Step::Emit(m)),
            Ok(None) => Ok(Step::End),
            Err(e) => Err(e),
        }
    }
}

/// Before any leaf is supplied the merge is sound, and the runs that it
/// has to emit are the merged runs of the two devices.
pub proof fn lemma_fresh_to_come(
    base_leaves: Seq<u64>,
    overlay_leaves: Seq<u64>,
    batch_size: nat,
    base: Seq<Leaf>,
    overlay: Seq<Leaf>,
)
    requires
        batch_size >= 1,
        base.len() == base_leaves.len(),
        overlay.len() == overlay_leaves.len(),
    ensures
        MergeView::fresh(base_leaves, overlay_leaves, batch_size).wf(),
        MergeView::fresh(base_leaves, overlay_leaves, batch_size).sound(),
        MergeView::fresh(base_leaves, overlay_leaves, batch_size).awaits(base, overlay),
        MergeView::fresh(base_leaves, overlay_leaves, batch_size).to_come(base, overlay) == merged(
            runs(entries_of(base)),
            runs(entries_of(overlay)),
        ),
{
    assert(Seq::<Entry>::empty() + entries_of(base) =~= entries_of(base));
    assert(Seq::<Entry>::empty() + entries_of(overlay) =~= entries_of(overlay));
}

/// A step and a supply keep the state of a merge well formed.
pub proof fn lemma_merge_wf(m: MergeView, side: Side, batch: Seq<Leaf>)
    requires
        m.wf(),
    ensures
        m.next().0.wf(),
        m.stream(side).pending() && batch.len() == m.stream(side).iter.wanted().len() ==> m.supply(
            side,
            batch,
        ).0.wf(),
{
    lemma_stream_wf(m.base, 0);
    lemma_stream_wf(m.overlay, 0);
    match (m.base.head, m.overlay.head) {
        (Some(b), Some(o)) => {
            match decide(b, o) {
                Move::TakeBasePrefix(d) => {
                    lemma_stream_wf(m.base, d);
                },
                Move::CutBase(d) => {
                    lemma_stream_wf(m.base, d);
                },
                _ => {},
            }
        },
        _ => {},
    }
    if m.stream(side).pending() && batch.len() == m.stream(side).iter.wanted().len() {
        let s = m.stream(side);
        lemma_stream_wf(StreamView { head: s.head, iter: s.iter.supply(batch) }, 0);
    }
}

/// A step follows the merged runs of the two devices: a run that it emits
/// is the first of the runs to come, whatever the leaves not yet supplied
/// hold; a step that emits none leaves the runs to come as they are; at the
/// end none is to come. And the merge ends: a step that emits a run or
/// drops one shrinks what the two streams have yet to hand out, by a block
/// at least.
pub proof fn lemma_next_follows_merged(m: MergeView, base: Seq<Leaf>, overlay: Seq<Leaf>)
    requires
        m.wf(),
        m.sound(),
        m.awaits(base, overlay),
    ensures
        m.next().1 is Ok ==> m.next().0.sound() && m.next().0.awaits(base, overlay),
        match m.next().1 {
            Ok(Step::Emit(x)) => m.to_come(base, overlay) == seq![x] + m.next().0.to_come(
                base,
                overlay,
            ),
            Ok(Step::Skip) => m.to_come(base, overlay) == m.next().0.to_come(base, overlay),
            Ok(Step::Starved) => m.next().0 == m,
            Ok(Step::End) => m.to_come(base, overlay) == Seq::<Mapping>::empty(),
            Err(_) => true,
        },
        m.next().1 matches Ok(step) && (step is Emit || step is Skip) ==> m.next().0.remaining(
            base,
            overlay,
        ) < m.remaining(base, overlay),
{
    if !(m.base.pending() || m.overlay.pending()) {
        lemma_head_is_first(m.base, base);
        lemma_head_is_first(m.overlay, overlay);
        let bs = m.base.rest(base);
        match (m.base.head, m.overlay.head) {
            (None, None) => {},
            (Some(b), None) => {
                lemma_skip_follows_runs(m.base, b, b.2, base);
            },
            (None, Some(o)) => {
                lemma_skip_follows_runs(m.overlay, o, o.2, overlay);
            },
            (Some(b), Some(o)) => {
                if !overflowing(b, o) {
                    match decide(b, o) {
                        Move::TakeOverlay => {
                            lemma_skip_follows_runs(m.overlay, o, o.2, overlay);
                        },
                        Move::TakeBase => {
                            lemma_skip_follows_runs(m.base, b, b.2, base);
                        },
                        Move::TakeBasePrefix(d) => {
                            lemma_skip_follows_runs(m.base, b, d, base);
                            assert(bs.update(0, rest_of(b, d)).drop_first() =~= bs.drop_first());
                        },
                        Move::CutBase(d) => {
                            lemma_skip_follows_runs(m.base, b, d, base);
                            lemma_skip_follows_runs(m.overlay, o, o.2, overlay);
                            assert(bs.update(0, rest_of(b, d)).drop_first() =~= bs.drop_first());
                        },
                        Move::DropBase => {
                            lemma_skip_follows_runs(m.base, b, b.2, base);
                        },
                    }
                }
            },
        }
    }
}

/// After a supply the runs that the merge has yet to emit are those that
/// it had to emit before, with the batch ahead of the other leaves of its
/// side.
pub proof fn lemma_supply_follows_merged(
    m: MergeView,
    side: Side,
    batch: Seq<Leaf>,
    future: Seq<Leaf>,
)
    requires
        m.wf(),
        m.sound(),
        m.stream(side).pending(),
        m.stream(side).iter.awaits(batch + future),
    ensures
        m.supply(side, batch).1 is Ok ==> {
            &&& m.supply(side, batch).0.sound()
            &&& m.supply(side, batch).0.stream(side).iter.awaits(future)
            &&& m.supply(side, batch).0.stream(side).rest(future) == m.stream(side).rest(
                batch + future,
            )
        },
        side == Side::Base ==> m.supply(side, batch).0.overlay == m.overlay,
        side == Side::Overlay ==> m.supply(side, batch).0.base == m.base,
{
    lemma_supply_follows_rest(m.stream(side), batch, future);
}

/// On tame entries a step does not fail, and leaves the merge tame.
pub proof fn lemma_next_tame(m: MergeView, base: Seq<Leaf>, overlay: Seq<Leaf>)
    requires
        m.wf(),
        m.awaits(base, overlay),
        m.tame(base, overlay),
    ensures
        m.next().1 is Ok,
        m.next().0.tame(base, overlay),
{
    lemma_stream_tame(m.base, 0, base);
    lemma_stream_tame(m.overlay, 0, overlay);
    match (m.base.head, m.overlay.head) {
        (Some(b), Some(o)) => {
            match decide(b, o) {
                Move::TakeBasePrefix(d) => {
                    lemma_stream_tame(m.base, d, base);
                },
                Move::CutBase(d) => {
                    lemma_stream_tame(m.base, d, base);
                },
                _ => {},
            }
        },
        _ => {},
    }
}

/// A supply of tame entries does not fail, and leaves the merge tame.
pub proof fn lemma_supply_merge_tame(
    m: MergeView,
    side: Side,
    batch: Seq<Leaf>,
    base: Seq<Leaf>,
    overlay: Seq<Leaf>,
)
    requires
        m.wf(),
        m.stream(side).pending(),
        side == Side::Base ==> m.awaits(batch + base, overlay) && m.tame(batch + base, overlay),
        side == Side::Overlay ==> m.awaits(base, batch + overlay) && m.tame(
            base,
            batch + overlay,
        ),
    ensures
        m.supply(side, batch).1 is Ok,
        m.supply(side, batch).0.tame(base, overlay),
{
    match side {
        Side::Base => lemma_supply_stream_tame(m.base, batch, base),
        Side::Overlay => lemma_supply_stream_tame(m.overlay, batch, overlay),
    }
}

} // verus!
