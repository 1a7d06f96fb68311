use vstd::prelude::*;
use crate::error::MergeError;
use crate::mapping::{BlockTime, Entry, Mapping, end_of, well_formed};
use crate::mapping_iterator::{
    IterView, Leaf, MappingIterator, Pull, lemma_pull_follows_runs, lemma_pull_tame,
    lemma_pull_wf, lemma_supply_follows_runs, lemma_supply_tame,
};
use crate::overlay::total_len;

verus! {

/// What is left of the run `m` after its first `delta` keys were bitten off.
pub open spec fn rest_of(m: Mapping, delta: u64) -> Mapping {
    (
        (m.0 + delta) as u64,
        BlockTime { block: (m.1.block + delta) as u64, time: m.1.time },
        (m.2 - delta) as u64,
    )
}

/// The state of a `MappingStream`, as contracts see it.
pub ghost struct StreamView {
    /// The head: the run, or what is left of it, that the stream hands out
    /// next.
    pub head: Option<Mapping>,
    /// The iterator that the heads are pulled from.
    pub iter: IterView,
}

impl StreamView {
    /// What the invariant of a stream says of its state.
    pub open spec fn wf(self) -> bool {
        &&& self.iter.wf()
        &&& self.head matches Some(m) ==> well_formed(m) && !self.iter.starved()
    }

    /// The state before any leaf was supplied.
    pub open spec fn fresh(leaves: Seq<u64>, batch_size: nat) -> StreamView {
        StreamView { head: None, iter: IterView::fresh(leaves, batch_size) }
    }

    /// The head and the iterator are in step: while there is a head no run
    /// is open, and without one the iterator is starved or used up.
    pub open spec fn sound(self) -> bool {
        match self.head {
            Some(_) => self.iter.run is None,
            None => self.iter.starved() || (self.iter.known.len() == 0 && self.iter.run is None),
        }
    }

    /// The runs that the stream has yet to hand out, where the leaves not
    /// yet supplied are `future`: the head, and the runs to come of the
    /// iterator.
    pub open spec fn rest(self, future: Seq<Leaf>) -> Seq<Mapping> {
        match self.head {
            Some(m) => seq![m] + self.iter.runs_to_come(future),
            None => self.iter.runs_to_come(future),
        }
    }

    /// The entries to come are tame, and the head ends in range.
    pub open spec fn tame(self, future: Seq<Leaf>) -> bool {
        &&& self.iter.tame(future)
        &&& self.head matches Some(m) ==> end_of(m) <= u64::MAX
    }

    /// The head is not known before the next batch of leaves is supplied.
    pub open spec fn pending(self) -> bool {
        self.iter.starved()
    }

    /// The state after the next run was pulled into the head. An error
    /// leaves the head as it was.
    pub open spec fn advance(self) -> (StreamView, Result<(), MergeError>) {
        let (it, r) = self.iter.pull();
        match r {
            Ok(Pull::Run(m)) => (StreamView { head: Some(m), iter: it }, Ok(())),
            Ok(_) => (StreamView { head: None, iter: it }, Ok(())),
            Err(e) => (StreamView { head: self.head, iter: it }, Err(e)),
        }
    }

    /// The state after the batch was handed in and the pull taken up again.
    pub open spec fn supply(self, batch: Seq<Leaf>) -> (StreamView, Result<(), MergeError>) {
        (StreamView { head: self.head, iter: self.iter.supply(batch) }).advance()
    }

    /// The state after `delta` keys were taken off the head: the whole
    /// head gives way to the next run, a part of it leaves the rest as the
    /// head, and more than it holds is an error.
    pub open spec fn skip(self, delta: u64) -> (StreamView, Result<(), MergeError>) {
        match self.head {
            None => (self, Ok(())),
            Some(m) => if delta > m.2 {
                (self, Err(MergeError::DeltaTooLarge))
            } else if delta == m.2 {
                self.advance()
            } else {
                (StreamView { head: Some(rest_of(m, delta)), iter: self.iter }, Ok(()))
            },
        }
    }

    /// As `skip`, and the keys taken off are handed out as a run.
    pub open spec fn consume(self, delta: u64) -> (StreamView, Result<
        Option<Mapping>,
        MergeError,
    >) {
        let (s, r) = self.skip(delta);
        match (r, self.head) {
            (Err(e), _) => (s, Err(e)),
            (Ok(_), None) => (s, Ok(None)),
            (Ok(_), Some(m)) => (s, Ok(Some((m.0, m.1, delta)))),
        }
    }

    /// The state after the whole head was taken off.
    pub open spec fn skip_all(self) -> (StreamView, Result<(), MergeError>) {
        match self.head {
            None => (self, Ok(())),
            Some(m) => self.skip(m.2),
        }
    }

    /// As `skip_all`, and the head is handed out.
    pub open spec fn consume_all(self) -> (StreamView, Result<Option<Mapping>, MergeError>) {
        match self.head {
            None => (self, Ok(None)),
            Some(m) => self.consume(m.2),
        }
    }
}

/// A cursor over the runs of one device that looks one run ahead, so that
/// pieces can be bitten off the head.
pub struct MappingStream {
    iter: MappingIterator,
    current: Option<Mapping>,
}

impl View for MappingStream {
    type V = StreamView;

    closed spec fn view(&self) -> StreamView {
        StreamView { head: self.current, iter: self.iter@ }
    }
}

impl MappingStream {
    /// The invariant of the stream: that of its iterator, and a head that
    /// is well formed and known only while the iterator is not starved.
    pub closed spec fn wf(&self) -> bool {
        &&& self.iter.wf()
        &&& self@.wf()
    }

    /// The invariant, as far as the view shows it.
    pub proof fn lemma_wf(&self)
        requires
            self.wf(),
        ensures
            self@.wf(),
    {
    }

    /// A stream over the leaves at the addresses `leaves`, read
    /// `batch_size` at a time. Its head is pending until the first batch is
    /// supplied.
    pub fn new(leaves: Vec<u64>, batch_size: usize) -> (r: Self)
        requires
            batch_size >= 1,
        ensures
            r.wf(),
            r@ == StreamView::fresh(leaves@, batch_size as nat),
    {
        let iter = MappingIterator::new(leaves, batch_size);
        proof {
            iter.lemma_wf();
        }
        MappingStream { iter, current: None }
    }

    /// The addresses of the leaves to read and decode next; empty unless
    /// the head is pending.
    pub fn wanted(&self) -> (r: &[u64])
        requires
            self.wf(),
        ensures
            r@ == self@.iter.wanted(),
            r@.len() <= self@.iter.batch_size,
            r@.len() > 0 <==> self@.pending(),
    {
        self.iter.wanted()
    }

    /// Pulls the next run into the head.
    fn advance(&mut self) -> (r: Result<(), MergeError>)
        requires
            old(self).iter.wf(),
            old(self)@.iter.wf(),
        ensures
            final(self).iter.wf(),
            final(self)@.iter.wf(),
            (final(self)@, r) == old(self)@.advance(),
    {
        proof {
            lemma_pull_wf(self.iter@);
        }
        match self.iter.next_range() {
            Ok(Pull::Run(m)) => {
                self.current = Some(m);
                Ok(())
            },
            Ok(_) => {
                self.current = None;
                Ok(())
            },
            Err(e) => Err(e),
        }
    }

    /// Takes in the decoded leaves of the batch that `wanted` named, and
    /// takes up the pull of the head again. The head may still be pending
    /// after it.
    pub fn supply(&mut self, batch: Vec<Leaf>) -> (r: Result<(), MergeError>)
        requires
            old(self).wf(),
            old(self)@.pending(),
            batch@.len() == old(self)@.iter.wanted().len(),
        ensures
            final(self).wf(),
            (final(self)@, r) == old(self)@.supply(batch@),
    {
        proof {
            lemma_pull_wf(self.iter@.supply(batch@));
        }
        self.iter.supply(batch);
        self.advance()
    }

    /// Whether the stream has a head.
    pub fn more_mappings(&self) -> (r: bool)
        ensures
            r == (self@.head is Some),
    {
        self.current.is_some()
    }

    /// The head of the stream.
    pub fn get_mapping(&self) -> (r: Option<&Mapping>)
        ensures
            match r {
                Some(m) => self@.head == Some(*m),
                None => self@.head is None,
            },
    {
        self.current.as_ref()
    }

    /// Takes the first `delta` keys off the head and hands them out as a
    /// run; `None` where the stream has no head.
    pub fn consume(&mut self, delta: u64) -> (r: Result<Option<Mapping>, MergeError>)
        requires
            old(self).wf(),
            delta >= 1,
        ensures
            final(self).wf(),
            (final(self)@, r) == old(self)@.consume(delta),
    {
        proof {
            lemma_stream_wf(self@, delta);
        }
        match self.current {
            Some((key, bt, len)) => {
                if delta > len {
                    Err(MergeError::DeltaTooLarge)
                } else if delta == len {
                    match self.advance() {
                        Ok(_) => Ok(Some((key, bt, len))),
                        Err(e) => Err(e),
                    }
                } else {
                    self.current = Some(
                        (
                            key + delta,
                            BlockTime { block: bt.block + delta, time: bt.time },
                            len - delta,
                        ),
                    );
                    Ok(Some((key, bt, delta)))
                }
            },
            None => Ok(None),
        }
    }

    /// Takes the first `delta` keys off the head and drops them.
    pub fn skip(&mut self, delta: u64) -> (r: Result<(), MergeError>)
        requires
            old(self).wf(),
        ensures
            final(self).wf(),
            (final(self)@, r) == old(self)@.skip(delta),
    {
        proof {
            lemma_stream_wf(self@, delta);
        }
        match self.current {
            Some((key, bt, len)) => {
                if delta > len {
                    Err(MergeError::DeltaTooLarge)
                } else if delta == len {
                    self.advance()
                } else {
                    self.current = Some(
                        (
                            key + delta,
                            BlockTime { block: bt.block + delta, time: bt.time },
                            len - delta,
                        ),
                    );
                    Ok(())
                }
            },
            None => Ok(()),
        }
    }

    /// Hands out the whole head; `None` where the stream has none.
    pub fn consume_all(&mut self) -> (r: Result<Option<Mapping>, MergeError>)
        requires
            old(self).wf(),
        ensures
            final(self).wf(),
            (final(self)@, r) == old(self)@.consume_all(),
    {
        proof {
            lemma_stream_wf(self@, 0);
        }
        match self.current {
            Some(m) => {
                match self.advance() {
                    Ok(_) => Ok(Some(m)),
                    Err(e) => Err(e),
                }
            },
            None => Ok(None),
        }
    }

    /// Drops the whole head.
    pub fn skip_all(&mut self) -> (r: Result<(), MergeError>)
        requires
            old(self).wf(),
        ensures
            final(self).wf(),
            (final(self)@, r) == old(self)@.skip_all(),
    {
        proof {
            lemma_stream_wf(self@, 0);
        }
        if self.current.is_some() {
            self.advance()
        } else {
            Ok(())
        }
    }
}

/// The transitions of a stream keep its state well formed.
pub proof fn lemma_stream_wf(s: StreamView, delta: u64)
    requires
        s.wf(),
    ensures
        s.advance().0.wf(),
        s.skip(delta).0.wf(),
        s.consume(delta).0.wf(),
        s.skip_all().0.wf(),
        s.consume_all().0.wf(),
{
    lemma_pull_wf(s.iter);
}

/// The head of a stream that is not pending is the first of the runs that
/// the stream has yet to hand out; without a head none is left.
pub proof fn lemma_head_is_first(s: StreamView, future: Seq<Leaf>)
    requires
        s.wf(),
        s.sound(),
        s.iter.awaits(future),
        !s.pending(),
    ensures
        s.head is None ==> s.rest(future) == Seq::<Mapping>::empty(),
        s.head is Some ==> s.rest(future).len() > 0 && s.rest(future)[0] == s.head->0,
{
    if s.head is None {
        assert(future =~= Seq::<Leaf>::empty());
        assert(s.iter.to_come(future) =~= Seq::<Entry>::empty());
    }
}

/// An advance follows the runs of the device: the head and the runs to
/// come after it are the runs that were to come before it.
pub proof fn lemma_advance_follows_runs(s: StreamView, future: Seq<Leaf>)
    requires
        s.wf(),
        s.iter.awaits(future),
    ensures
        s.advance().1 is Ok ==> {
            &&& s.advance().0.sound()
            &&& s.advance().0.iter.awaits(future)
            &&& s.advance().0.rest(future) == s.iter.runs_to_come(future)
        },
{
    lemma_pull_follows_runs(s.iter, future);
}

/// Taking keys off the head follows the runs of the device: the whole
/// head leaves the runs behind it, a part of it leaves the rest of the head
/// before them.
pub proof fn lemma_skip_follows_runs(s: StreamView, m: Mapping, delta: u64, future: Seq<Leaf>)
    requires
        s.wf(),
        s.sound(),
        s.iter.awaits(future),
        s.head == Some(m),
        delta <= m.2,
    ensures
        s.consume(delta).0 == s.skip(delta).0,
        s.consume(delta).1 is Ok <==> s.skip(delta).1 is Ok,
        s.skip(delta).1 is Ok ==> {
            &&& s.skip(delta).0.sound()
            &&& s.skip(delta).0.iter.awaits(future)
            &&& s.consume(delta).1 == Ok::<Option<Mapping>, MergeError>(Some((m.0, m.1, delta)))
            &&& delta == m.2 ==> s.skip(delta).0.rest(future) == s.rest(future).drop_first()
            &&& delta < m.2 ==> s.skip(delta).0.rest(future) == s.rest(future).update(
                0,
                rest_of(m, delta),
            )
        },
{
    if delta == m.2 {
        lemma_advance_follows_runs(s, future);
        assert(s.rest(future).drop_first() =~= s.iter.runs_to_come(future));
    } else {
        assert(s.skip(delta).0.rest(future) =~= s.rest(future).update(0, rest_of(m, delta)));
    }
}

/// What is taken off the head is taken off the stream, no more and no
/// less: the blocks that the stream has yet to hand out are `delta` fewer.
pub proof fn lemma_skip_takes_delta(s: StreamView, m: Mapping, delta: u64, future: Seq<Leaf>)
    requires
        s.wf(),
        s.sound(),
        s.iter.awaits(future),
        s.head == Some(m),
        delta <= m.2,
        s.skip(delta).1 is Ok,
    ensures
        total_len(s.skip(delta).0.rest(future)) + delta == total_len(s.rest(future)),
        total_len(s.consume(delta).0.rest(future)) + delta == total_len(s.rest(future)),
{
    lemma_skip_follows_runs(s, m, delta, future);
    let rs = s.rest(future);
    assert(rs[0] == m);
    assert(rs.update(0, rest_of(m, delta)).drop_first() =~= rs.drop_first());
}

/// After a supply the runs that the stream has yet to hand out are those
/// that it had to hand out before, with the batch ahead of the other
/// leaves.
pub proof fn lemma_supply_follows_rest(s: StreamView, batch: Seq<Leaf>, future: Seq<Leaf>)
    requires
        s.wf(),
        s.sound(),
        s.pending(),
        s.iter.awaits(batch + future),
    ensures
        s.supply(batch).1 is Ok ==> {
            &&& s.supply(batch).0.sound()
            &&& s.supply(batch).0.iter.awaits(future)
            &&& s.supply(batch).0.rest(future) == s.rest(batch + future)
        },
{
    let fed = StreamView { head: s.head, iter: s.iter.supply(batch) };
    lemma_supply_follows_runs(s.iter, batch, future);
    lemma_advance_follows_runs(fed, future);
}

/// On tame entries a stream does not fail as long as no more is taken
/// off the head than it holds, and stays tame.
pub proof fn lemma_stream_tame(s: StreamView, delta: u64, future: Seq<Leaf>)
    requires
        s.wf(),
        s.iter.awaits(future),
        s.tame(future),
        s.head matches Some(m) ==> delta <= m.2,
    ensures
        s.advance().1 is Ok,
        s.advance().0.tame(future),
        s.skip(delta).1 is Ok,
        s.skip(delta).0.tame(future),
        s.consume(delta).1 is Ok,
        s.consume(delta).0.tame(future),
        s.skip_all().1 is Ok,
        s.skip_all().0.tame(future),
        s.consume_all().1 is Ok,
        s.consume_all().0.tame(future),
{
    lemma_pull_tame(s.iter, future);
}

/// A supply of tame entries does not fail, and leaves the stream tame.
pub proof fn lemma_supply_stream_tame(s: StreamView, batch: Seq<Leaf>, future: Seq<Leaf>)
    requires
        s.wf(),
        s.pending(),
        s.iter.awaits(batch + future),
        s.tame(batch + future),
    ensures
        s.supply(batch).1 is Ok,
        s.supply(batch).0.tame(future),
{
    lemma_supply_tame(s.iter, batch, future);
    lemma_supply_follows_runs(s.iter, batch, future);
    lemma_pull_tame(s.iter.supply(batch), future);
}

} // verus!
