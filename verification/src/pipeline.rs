use vstd::prelude::*;
use crate::error::MergeError;
use crate::mapping::Mapping;
use crate::mapping_iterator::{
    IterView, Leaf, MappingIterator, Pull, lemma_pull_follows_runs, lemma_pull_tame,
    lemma_pull_wf, lemma_supply_follows_runs, lemma_supply_tame,
};
use crate::merge::{
    MergeView, RangeMergeIterator, Side, Step, lemma_merge_wf, lemma_next_follows_merged,
    lemma_next_tame, lemma_supply_follows_merged, lemma_supply_merge_tame,
};
use crate::overlay::total_len;

verus! {

/// How many batches of runs wait between the merge and the writer at most.
pub const QUEUE_DEPTH: usize = 4;

/// How many runs make a batch.
pub const BUFFER_LEN: usize = 1024;

/// How many nodes the writer writes at a time.
pub const WRITE_BATCH_SIZE: usize = 32;

/// One run of the merged device, as the writer takes it.
#[derive(Clone, Copy, Debug, PartialEq, Eq, Structural)]
pub struct Run {
    pub thin_begin: u64,
    pub data_begin: u64,
    pub time: u32,
    pub len: u64,
}

/// The record for the run `m`.
pub open spec fn run_of(m: Mapping) -> Run {
    Run { thin_begin: m.0, data_begin: m.1.block, time: m.1.time, len: m.2 }
}

/// The number of blocks that the records map: the sum of their lengths.
pub open spec fn blocks_in(runs: Seq<Run>) -> nat
    decreases runs.len(),
{
    if runs.len() == 0 {
        0
    } else {
        blocks_in(runs.drop_last()) + runs.last().len as nat
    }
}

/// Packs a run into a record for the writer.
pub fn pack_run(m: Mapping) -> (r: Run)
    ensures
        r == run_of(m),
{
    Run { thin_begin: m.0, data_begin: m.1.block, time: m.1.time, len: m.2 }
}

/// The runs of the batch that is being filled.
pub struct RunBuffer {
    runs: Vec<Run>,
}

impl View for RunBuffer {
    type V = Seq<Run>;

    closed spec fn view(&self) -> Seq<Run> {
        self.runs@
    }
}

impl RunBuffer {
    /// The invariant of the buffer: it is never full.
    pub closed spec fn wf(&self) -> bool {
        self.runs.len() < BUFFER_LEN
    }

    /// The invariant, as far as the view shows it.
    pub proof fn lemma_wf(&self)
        requires
            self.wf(),
        ensures
            self@.len() < BUFFER_LEN,
    {
    }

    /// An empty buffer.
    pub fn new() -> (r: Self)
        ensures
            r.wf(),
            r@ == Seq::<Run>::empty(),
    {
        RunBuffer { runs: Vec::with_capacity(BUFFER_LEN) }
    }

    /// Adds the run to the batch. The batch is handed out, and a new one
    /// begun, when it has reached `BUFFER_LEN` runs.
    pub fn push(&mut self, m: Mapping) -> (r: Option<Vec<Run>>)
        requires
            old(self).wf(),
        ensures
            final(self).wf(),
            old(self)@.len() + 1 < BUFFER_LEN ==> r is None && final(self)@ == old(self)@.push(
                run_of(m),
            ),
            old(self)@.len() + 1 == BUFFER_LEN ==> r is Some && r->0@ == old(self)@.push(run_of(m))
                && final(self)@ == Seq::<Run>::empty(),
    {
        self.runs.push(pack_run(m));
        if self.runs.len() == BUFFER_LEN {
            let mut full: Vec<Run> = Vec::with_capacity(BUFFER_LEN);
            core::mem::swap(&mut self.runs, &mut full);
            Some(full)
        } else {
            None
        }
    }

    /// Hands out the batch that is being filled, unless it is empty, and
    /// begins a new one.
    pub fn flush(&mut self) -> (r: Option<Vec<Run>>)
        requires
            old(self).wf(),
        ensures
            final(self).wf(),
            final(self)@ == Seq::<Run>::empty(),
            old(self)@.len() == 0 ==> r is None,
            old(self)@.len() > 0 ==> r is Some && r->0@ == old(self)@,
    {
        if self.runs.len() == 0 {
            None
        } else {
            let mut rest: Vec<Run> = Vec::new();
            core::mem::swap(&mut self.runs, &mut rest);
            Some(rest)
        }
    }
}

/// The number of mapped blocks after a batch was written: the number
/// before it and the blocks of the batch, or the error where the sum leaves
/// the 64-bit range.
pub open spec fn counted(mapped_blocks: u64, runs: Seq<Run>) -> Result<u64, MergeError> {
    if mapped_blocks + blocks_in(runs) <= u64::MAX {
        Ok((mapped_blocks + blocks_in(runs)) as u64)
    } else {
        Err(MergeError::Overflow)
    }
}

/// The number of mapped blocks after the batches were written, one after
/// the other.
pub open spec fn counted_in(mapped_blocks: u64, batches: Seq<Seq<Run>>) -> Result<u64, MergeError>
    decreases batches.len(),
{
    if batches.len() == 0 {
        Ok(mapped_blocks)
    } else {
        match counted(mapped_blocks, batches[0]) {
            Ok(so_far) => counted_in(so_far, batches.drop_first()),
            Err(e) => Err(e),
        }
    }
}

/// Adds the blocks of a batch to the number of mapped blocks.
pub fn count_mapped(mapped_blocks: u64, runs: &Vec<Run>) -> (r: Result<u64, MergeError>)
    ensures
        r == counted(mapped_blocks, runs@),
{
    let mut total: u64 = mapped_blocks;
    let mut i: usize = 0;
    while i < runs.len()
        invariant
            i <= runs.len(),
            total == mapped_blocks + blocks_in(runs@.take(i as int)),
        decreases runs.len() - i,
    {
        proof {
            assert(runs@.take(i + 1).drop_last() =~= runs@.take(i as int));
            lemma_blocks_in_concat(runs@.take(i + 1), runs@.skip(i + 1));
            assert(runs@.take(i + 1) + runs@.skip(i + 1) =~= runs@);
        }
        match total.checked_add(runs[i].len) {
            Some(t) => {
                total = t;
            },
            None => {
                return Err(MergeError::Overflow);
            },
        }
        i = i + 1;
    }
    proof {
        assert(runs@.take(i as int) =~= runs@);
    }
    Ok(total)
}

/// What the producer asks of the program that drives it.
#[derive(Debug, PartialEq, Eq)]
pub enum Action {
    /// Read and decode the leaves that the side wants, and supply them.
    Read(Side),
    /// Send the batch to the writer.
    Send(Vec<Run>),
    /// Nothing; poll again.
    Continue,
    /// Nothing more: every run was sent.
    Done,
}

/// An action, as contracts see it.
pub ghost enum ActionView {
    Read(Side),
    Send(Seq<Run>),
    Continue,
    Done,
}

impl View for Action {
    type V = ActionView;

    open spec fn view(&self) -> ActionView {
        match *self {
            Action::Read(side) => ActionView::Read(side),
            Action::Send(runs) => ActionView::Send(runs@),
            Action::Continue => ActionView::Continue,
            Action::Done => ActionView::Done,
        }
    }
}

/// Where the runs come from, as contracts see it.
pub ghost enum SourceView {
    /// One device, dumped as it is.
    Single(IterView),
    /// Two devices, merged.
    Merge(MergeView),
}

/// The state of a `Producer`, as contracts see it.
pub ghost struct ProducerView {
    pub source: SourceView,
    /// The runs of the batch that is being filled.
    pub buffer: Seq<Run>,
    /// The source has ended and the last batch was handed out.
    pub ended: bool,
}

impl ProducerView {
    /// What the invariant of a producer says of its state.
    pub open spec fn wf(self) -> bool {
        &&& self.buffer.len() < BUFFER_LEN
        &&& match self.source {
            SourceView::Single(it) => it.wf(),
            SourceView::Merge(m) => m.wf(),
        }
    }

    /// The state of a producer of the runs of one device, before any leaf
    /// was supplied.
    pub open spec fn dump_single_device(leaves: Seq<u64>, batch_size: nat) -> ProducerView {
        ProducerView {
            source: SourceView::Single(IterView::fresh(leaves, batch_size)),
            buffer: Seq::empty(),
            ended: false,
        }
    }

    /// The state of a producer of the merged runs of two devices, before
    /// any leaf was supplied.
    pub open spec fn merge(base: Seq<u64>, overlay: Seq<u64>, batch_size: nat) -> ProducerView {
        ProducerView {
            source: SourceView::Merge(MergeView::fresh(base, overlay, batch_size)),
            buffer: Seq::empty(),
            ended: false,
        }
    }

    /// The streams of the source are sound.
    pub open spec fn sound(self) -> bool {
        match self.source {
            SourceView::Single(it) => true,
            SourceView::Merge(m) => m.sound(),
        }
    }

    /// The leaves `base` and `overlay` are as many as are left to supply
    /// on each side.
    pub open spec fn awaits(self, base: Seq<Leaf>, overlay: Seq<Leaf>) -> bool {
        match self.source {
            SourceView::Single(it) => it.awaits(base),
            SourceView::Merge(m) => m.awaits(base, overlay),
        }
    }

    /// The entries that the source has yet to read are tame.
    pub open spec fn tame(self, base: Seq<Leaf>, overlay: Seq<Leaf>) -> bool {
        match self.source {
            SourceView::Single(it) => it.tame(base),
            SourceView::Merge(m) => m.tame(base, overlay),
        }
    }

    /// The records that the producer has yet to send, where the leaves not
    /// yet supplied are `base` and `overlay`: those in the batch, and one
    /// for each run that the source has yet to hand out.
    pub open spec fn to_send(self, base: Seq<Leaf>, overlay: Seq<Leaf>) -> Seq<Run> {
        if self.ended {
            Seq::empty()
        } else {
            self.buffer + match self.source {
                SourceView::Single(it) => it.runs_to_come(base),
                SourceView::Merge(m) => m.to_come(base, overlay),
            }.map_values(|m: Mapping| run_of(m))
        }
    }

    /// The side waits for leaves.
    pub open spec fn pending(self, side: Side) -> bool {
        match self.source {
            SourceView::Single(it) => side == Side::Base && it.starved(),
            SourceView::Merge(m) => m.stream(side).pending(),
        }
    }

    /// The addresses of the leaves that the side wants.
    pub open spec fn wanted(self, side: Side) -> Seq<u64> {
        match self.source {
            SourceView::Single(it) => if side == Side::Base {
                it.wanted()
            } else {
                Seq::empty()
            },
            SourceView::Merge(m) => m.stream(side).iter.wanted(),
        }
    }

    /// The state after the batch was handed to the side.
    pub open spec fn supply(self, side: Side, batch: Seq<Leaf>) -> (ProducerView, Result<
        (),
        MergeError,
    >) {
        match self.source {
            SourceView::Single(it) => (
                ProducerView { source: SourceView::Single(it.supply(batch)), ..self },
                Ok(()),
            ),
            SourceView::Merge(m) => (
                ProducerView { source: SourceView::Merge(m.supply(side, batch).0), ..self },
                m.supply(side, batch).1,
            ),
        }
    }

    /// The run goes into the batch; the batch is sent when that fills it.
    pub open spec fn pushed(self, m: Mapping) -> (ProducerView, Result<ActionView, MergeError>) {
        let all = self.buffer.push(run_of(m));
        if all.len() == BUFFER_LEN {
            (ProducerView { buffer: Seq::empty(), ..self }, Ok(ActionView::Send(all)))
        } else {
            (ProducerView { buffer: all, ..self }, Ok(ActionView::Continue))
        }
    }

    /// The source has ended; the batch is sent unless it is empty.
    pub open spec fn finished(self) -> (ProducerView, Result<ActionView, MergeError>) {
        if self.buffer.len() > 0 {
            (
                ProducerView { buffer: Seq::empty(), ended: true, ..self },
                Ok(ActionView::Send(self.buffer)),
            )
        } else {
            (ProducerView { ended: true, ..self }, Ok(ActionView::Done))
        }
    }

    /// One poll: the state after it, and what it asks for.
    ///
    /// A side that waits for leaves is to be read, the base first. Else
    /// the source makes one step: a run goes into the batch, the end of
    /// the source ends the producer, and an error of the source is the
    /// answer.
    pub open spec fn poll(self) -> (ProducerView, Result<ActionView, MergeError>) {
        if self.ended {
            (self, Ok(ActionView::Done))
        } else if self.pending(Side::Base) {
            (self, Ok(ActionView::Read(Side::Base)))
        } else if self.pending(Side::Overlay) {
            (self, Ok(ActionView::Read(Side::Overlay)))
        } else {
            match self.source {
                SourceView::Single(it) => {
                    let next = ProducerView { source: SourceView::Single(it.pull().0), ..self };
                    match it.pull().1 {
                        Ok(Pull::Run(m)) => next.pushed(m),
                        Ok(Pull::Starved) => (next, Ok(ActionView::Continue)),
                        Ok(Pull::End) => next.finished(),
                        Err(e) => (next, Err(e)),
                    }
                },
                SourceView::Merge(m) => {
                    let next = ProducerView { source: SourceView::Merge(m.next().0), ..self };
                    match m.next().1 {
                        Ok(Step::Emit(x)) => next.pushed(x),
                        Ok(Step::Skip) => (next, Ok(ActionView::Continue)),
                        Ok(Step::Starved) => (next, Ok(ActionView::Continue)),
                        Ok(Step::End) => next.finished(),
                        Err(e) => (next, Err(e)),
                    }
                },
            }
        }
    }
}

/// Where the runs of the output come from.
pub enum Source {
    Single(MappingIterator),
    Merge(RangeMergeIterator),
}

/// The side of the pipeline that makes the runs of the output and packs
/// them into batches for the writer.
pub struct Producer {
    source: Source,
    buffer: RunBuffer,
    ended: bool,
}

impl View for Producer {
    type V = ProducerView;

    closed spec fn view(&self) -> ProducerView {
        ProducerView {
            source: match self.source {
                Source::Single(it) => SourceView::Single(it@),
                Source::Merge(m) => SourceView::Merge(m@),
            },
            buffer: self.buffer@,
            ended: self.ended,
        }
    }
}

impl Producer {
    /// The invariant of the producer: those of its source and its buffer.
    pub closed spec fn wf(&self) -> bool {
        &&& self.buffer.wf()
        &&& match self.source {
            Source::Single(it) => it.wf(),
            Source::Merge(m) => m.wf(),
        }
    }

    /// The invariant, as far as the view shows it.
    pub proof fn lemma_wf(&self)
        requires
            self.wf(),
        ensures
            self@.wf(),
    {
        self.buffer.lemma_wf();
        match self.source {
            Source::Single(it) => it.lemma_wf(),
            Source::Merge(m) => m.lemma_wf(),
        }
    }

    /// A producer of the runs of the one device with the leaves `leaves`.
    pub fn dump_single_device(leaves: Vec<u64>, batch_size: usize) -> (r: Self)
        requires
            batch_size >= 1,
        ensures
            r.wf(),
            r@ == ProducerView::dump_single_device(leaves@, batch_size as nat),
    {
        Producer {
            source: Source::Single(MappingIterator::new(leaves, batch_size)),
            buffer: RunBuffer::new(),
            ended: false,
        }
    }

    /// A producer of the runs of the device with the leaves
    /// `overlay_leaves` laid over the one with the leaves `base_leaves`.
    pub fn merge(base_leaves: Vec<u64>, overlay_leaves: Vec<u64>, batch_size: usize) -> (r: Self)
        requires
            batch_size >= 1,
        ensures
            r.wf(),
            r@ == ProducerView::merge(base_leaves@, overlay_leaves@, batch_size as nat),
    {
        Producer {
            source: Source::Merge(RangeMergeIterator::new(base_leaves, overlay_leaves, batch_size)),
            buffer: RunBuffer::new(),
            ended: false,
        }
    }

    /// The addresses of the leaves that the side wants; empty unless it
    /// waits for leaves.
    pub fn wanted(&self, side: Side) -> (r: &[u64])
        requires
            self.wf(),
        ensures
            r@ == self@.wanted(side),
            r@.len() > 0 <==> self@.pending(side),
    {
        match &self.source {
            Source::Single(it) => match side {
                Side::Base => it.wanted(),
                Side::Overlay => {
                    let none = it.wanted();
                    vstd::slice::slice_subrange(none, 0, 0)
                },
            },
            Source::Merge(m) => m.wanted(side),
        }
    }

    /// Hands the decoded leaves of the batch that `wanted` named to the
    /// side.
    pub fn supply(&mut self, side: Side, batch: Vec<Leaf>) -> (r: Result<(), MergeError>)
        requires
            old(self).wf(),
            old(self)@.pending(side),
            batch@.len() == old(self)@.wanted(side).len(),
        ensures
            final(self).wf(),
            (final(self)@, r) == old(self)@.supply(side, batch@),
    {
        match &mut self.source {
            Source::Single(it) => {
                it.supply(batch);
                Ok(())
            },
            Source::Merge(m) => m.supply(side, batch),
        }
    }

    /// Puts the run into the batch.
    fn push(&mut self, m: Mapping) -> (r: Action)
        requires
            old(self).wf(),
        ensures
            final(self).wf(),
            (final(self)@, Ok::<ActionView, MergeError>(r@)) == old(self)@.pushed(m),
    {
        match self.buffer.push(m) {
            Some(runs) => Action::Send(runs),
            None => Action::Continue,
        }
    }

    /// Ends the producer.
    fn finish(&mut self) -> (r: Action)
        requires
            old(self).wf(),
        ensures
            final(self).wf(),
            (final(self)@, Ok::<ActionView, MergeError>(r@)) == old(self)@.finished(),
    {
        proof {
            if self.buffer@.len() == 0 {
                assert(self.buffer@ =~= Seq::<Run>::empty());
            }
        }
        self.ended = true;
        match self.buffer.flush() {
            Some(runs) => Action::Send(runs),
            None => Action::Done,
        }
    }

    /// One step of the producer: what the program is to do next.
    pub fn poll(&mut self) -> (r: Result<Action, MergeError>)
        requires
            old(self).wf(),
        ensures
            final(self).wf(),
            match r {
                Ok(a) => (final(self)@, Ok::<ActionView, MergeError>(a@)) == old(self)@.poll(),
                Err(e) => (final(self)@, Err::<ActionView, MergeError>(e)) == old(self)@.poll(),
            },
    {
        if self.ended {
            return Ok(Action::Done);
        }
        if self.wanted(Side::Base).len() > 0 {
            return Ok(Action::Read(Side::Base));
        }
        if self.wanted(Side::Overlay).len() > 0 {
            return Ok(Action::Read(Side::Overlay));
        }
        match &mut self.source {
            Source::Single(it) => match it.next_range() {
                Ok(Pull::Run(m)) => Ok(self.push(m)),
                Ok(Pull::Starved) => Ok(Action::Continue),
                Ok(Pull::End) => Ok(self.finish()),
                Err(e) => Err(e),
            },
            Source::Merge(m) => match m.next() {
                Ok(Step::Emit(x)) => Ok(self.push(x)),
                Ok(Step::Skip) => Ok(Action::Continue),
                Ok(Step::Starved) => Ok(Action::Continue),
                Ok(Step::End) => Ok(self.finish()),
                Err(e) => Err(e),
            },
        }
    }
}

/// The blocks of two batches, one after the other, are the blocks of both.
pub proof fn lemma_blocks_in_concat(a: Seq<Run>, b: Seq<Run>)
    ensures
        blocks_in(a + b) == blocks_in(a) + blocks_in(b),
    decreases b.len(),
{
    if b.len() == 0 {
        assert(a + b =~= a);
    } else {
        lemma_blocks_in_concat(a, b.drop_last());
        assert((a + b).drop_last() =~= a + b.drop_last());
    }
}

/// The count is accurate over batches: counting one batch after the other
/// gives what counting all their runs at once gives, so that the count from
/// zero is the sum of the lengths of all runs written.
pub proof fn lemma_counted_in_batches(mapped_blocks: u64, a: Seq<Run>, b: Seq<Run>)
    ensures
        counted(0, a + b) is Ok ==> counted(0, a + b) == Ok::<u64, MergeError>(
            blocks_in(a + b) as u64,
        ),
        match counted(mapped_blocks, a) {
            Ok(so_far) => counted(so_far, b) == counted(mapped_blocks, a + b),
            Err(_) => counted(mapped_blocks, a + b) is Err,
        },
{
    lemma_blocks_in_concat(a, b);
}

/// The records of runs map as many blocks as the lengths of the runs add
/// up to.
pub proof fn lemma_blocks_in_records(rs: Seq<Mapping>)
    ensures
        blocks_in(rs.map_values(|m: Mapping| run_of(m))) == total_len(rs),
    decreases rs.len(),
{
    let records = rs.map_values(|m: Mapping| run_of(m));
    if rs.len() > 0 {
        let first = seq![run_of(rs[0])];
        let others = rs.drop_first().map_values(|m: Mapping| run_of(m));
        lemma_blocks_in_records(rs.drop_first());
        lemma_blocks_in_concat(first, others);
        assert(first + others =~= records);
        assert(blocks_in(first) == rs[0].2) by {
            reveal_with_fuel(blocks_in, 2);
            assert(first.drop_last() =~= Seq::<Run>::empty());
        }
    }
}

/// Counting batch by batch gives what counting all their runs at once
/// gives.
pub proof fn lemma_counted_in_order(mapped_blocks: u64, batches: Seq<Seq<Run>>)
    ensures
        counted_in(mapped_blocks, batches) == counted(mapped_blocks, batches.flatten()),
    decreases batches.len(),
{
    if batches.len() == 0 {
        assert(batches.flatten() =~= Seq::<Run>::empty());
    } else {
        let first = batches[0];
        let others = batches.drop_first();
        lemma_counted_in_batches(mapped_blocks, first, others.flatten());
        match counted(mapped_blocks, first) {
            Ok(so_far) => {
                lemma_counted_in_order(so_far, others);
            },
            Err(_) => {},
        }
    }
}

/// The count is accurate: counted batch by batch from zero, the mapped
/// blocks are the sum of the lengths of all runs written; the count fails
/// only where that sum leaves the 64-bit range.
pub proof fn lemma_counted_is_sum(batches: Seq<Seq<Run>>)
    ensures
        counted_in(0, batches) matches Ok(total) ==> total == blocks_in(batches.flatten()),
        counted_in(0, batches) is Err <==> blocks_in(batches.flatten()) > u64::MAX,
{
    lemma_counted_in_order(0, batches);
}

/// A poll and a supply keep the state of a producer well formed.
pub proof fn lemma_producer_wf(p: ProducerView, side: Side, batch: Seq<Leaf>)
    requires
        p.wf(),
    ensures
        p.poll().0.wf(),
        p.pending(side) && batch.len() == p.wanted(side).len() ==> p.supply(side, batch).0.wf(),
{
    match p.source {
        SourceView::Single(it) => {
            lemma_pull_wf(it);
        },
        SourceView::Merge(m) => {
            lemma_merge_wf(m, side, batch);
        },
    }
}

/// A poll follows the runs of the source: a batch that it sends holds
/// the first of the runs to be sent, whatever the leaves not yet supplied
/// hold, and is full unless it is the last; a poll that sends none leaves
/// the runs to be sent as they are; when the producer is done none is left.
pub proof fn lemma_poll_follows_source(p: ProducerView, base: Seq<Leaf>, overlay: Seq<Leaf>)
    requires
        p.wf(),
        p.sound(),
        p.awaits(base, overlay),
    ensures
        p.poll().1 is Ok ==> p.poll().0.sound() && p.poll().0.awaits(base, overlay),
        match p.poll().1 {
            Ok(ActionView::Send(batch)) => {
                &&& p.to_send(base, overlay) == batch + p.poll().0.to_send(base, overlay)
                &&& 1 <= batch.len() <= BUFFER_LEN
                &&& batch.len() == BUFFER_LEN || p.poll().0.ended
            },
            Ok(ActionView::Done) => p.to_send(base, overlay) == Seq::<Run>::empty(),
            Ok(_) => p.to_send(base, overlay) == p.poll().0.to_send(base, overlay),
            Err(_) => true,
        },
{
    if !p.ended && !p.pending(Side::Base) && !p.pending(Side::Overlay) {
        match p.source {
            SourceView::Single(it) => {
                lemma_pull_follows_runs(it, base);
                let rs = it.runs_to_come(base);
                let rs2 = it.pull().0.runs_to_come(base);
                match it.pull().1 {
                    Ok(Pull::Run(m)) => {
                        assert(rs.map_values(|m: Mapping| run_of(m)) =~= seq![run_of(m)]
                            + rs2.map_values(|m: Mapping| run_of(m)));
                        assert(p.to_send(base, overlay) =~= p.buffer.push(run_of(m))
                            + rs2.map_values(|m: Mapping| run_of(m)));
                    },
                    Ok(Pull::End) => {
                        assert(p.to_send(base, overlay) =~= p.buffer);
                    },
                    _ => {},
                }
            },
            SourceView::Merge(mv) => {
                lemma_next_follows_merged(mv, base, overlay);
                let rs = mv.to_come(base, overlay);
                let rs2 = mv.next().0.to_come(base, overlay);
                match mv.next().1 {
                    Ok(Step::Emit(m)) => {
                        assert(rs.map_values(|m: Mapping| run_of(m)) =~= seq![run_of(m)]
                            + rs2.map_values(|m: Mapping| run_of(m)));
                        assert(p.to_send(base, overlay) =~= p.buffer.push(run_of(m))
                            + rs2.map_values(|m: Mapping| run_of(m)));
                    },
                    Ok(Step::End) => {
                        assert(p.to_send(base, overlay) =~= p.buffer);
                    },
                    _ => {},
                }
            },
        }
    }
}

/// After a supply the records that the producer has yet to send are those
/// that it had to send before, with the batch ahead of the other leaves of
/// its side.
pub proof fn lemma_supply_follows_source(
    p: ProducerView,
    side: Side,
    batch: Seq<Leaf>,
    base: Seq<Leaf>,
    overlay: Seq<Leaf>,
)
    requires
        p.wf(),
        p.sound(),
        p.pending(side),
        side == Side::Base ==> p.awaits(batch + base, overlay),
        side == Side::Overlay ==> p.awaits(base, batch + overlay),
    ensures
        p.supply(side, batch).1 is Ok ==> {
            &&& p.supply(side, batch).0.sound()
            &&& p.supply(side, batch).0.awaits(base, overlay)
            &&& side == Side::Base ==> p.supply(side, batch).0.to_send(base, overlay) == p.to_send(
                batch + base,
                overlay,
            )
            &&& side == Side::Overlay ==> p.supply(side, batch).0.to_send(base, overlay)
                == p.to_send(base, batch + overlay)
        },
{
    match p.source {
        SourceView::Single(it) => {
            lemma_supply_follows_runs(it, batch, base);
        },
        SourceView::Merge(m) => {
            match side {
                Side::Base => lemma_supply_follows_merged(m, side, batch, base),
                Side::Overlay => lemma_supply_follows_merged(m, side, batch, overlay),
            }
        },
    }
}

/// On tame entries neither a poll nor a supply fails, and both leave the
/// producer tame.
pub proof fn lemma_producer_tame(
    p: ProducerView,
    side: Side,
    batch: Seq<Leaf>,
    base: Seq<Leaf>,
    overlay: Seq<Leaf>,
)
    requires
        p.wf(),
    ensures
        p.awaits(base, overlay) && p.tame(base, overlay) ==> p.poll().1 is Ok && p.poll().0.tame(
            base,
            overlay,
        ),
        p.pending(side) && side == Side::Base && p.awaits(batch + base, overlay) && p.tame(
            batch + base,
            overlay,
        ) ==> p.supply(side, batch).1 is Ok && p.supply(side, batch).0.tame(base, overlay),
        p.pending(side) && side == Side::Overlay && p.awaits(base, batch + overlay) && p.tame(
            base,
            batch + overlay,
        ) ==> p.supply(side, batch).1 is Ok && p.supply(side, batch).0.tame(base, overlay),
{
    match p.source {
        SourceView::Single(it) => {
            if p.awaits(base, overlay) && p.tame(base, overlay) {
                lemma_pull_tame(it, base);
            }
            if p.pending(side) && side == Side::Base && p.tame(batch + base, overlay) {
                lemma_supply_tame(it, batch, base);
            }
        },
        SourceView::Merge(m) => {
            if p.awaits(base, overlay) && p.tame(base, overlay) {
                lemma_next_tame(m, base, overlay);
            }
            if p.pending(side) && side == Side::Base && p.awaits(batch + base, overlay) && p.tame(
                batch + base,
                overlay,
            ) {
                lemma_supply_merge_tame(m, side, batch, base, overlay);
            }
            if p.pending(side) && side == Side::Overlay && p.awaits(base, batch + overlay)
                && p.tame(base, batch + overlay) {
                lemma_supply_merge_tame(m, side, batch, base, overlay);
            }
        },
    }
}

} // verus!
