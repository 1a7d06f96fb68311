use vstd::prelude::*;
use vstd::slice::slice_subrange;
use crate::coalesce::{
    absorbed, grown, lemma_absorbed_bounds, lemma_absorbed_concat, lemma_absorbed_keys,
    lemma_absorbed_tame, lemma_tame_skip, opening, overflows, runs, runs_after, tame,
};
use crate::error::MergeError;
use crate::mapping::{BlockTime, Entry, Mapping, end_of, well_formed};

verus! {

/// A decoded leaf of a mapping tree: its entries in key order.
#[derive(Debug)]
pub struct Leaf {
    pub entries: Vec<Entry>,
}

impl View for Leaf {
    type V = Seq<Entry>;

    open spec fn view(&self) -> Seq<Entry> {
        self.entries@
    }
}

/// The entries of a sequence of leaves, in order. Empty leaves add nothing.
pub open spec fn entries_of(batch: Seq<Leaf>) -> Seq<Entry>
    decreases batch.len(),
{
    if batch.len() == 0 {
        Seq::empty()
    } else {
        batch[0]@ + entries_of(batch.drop_first())
    }
}

/// What an iterator hands out when it is asked for the next run.
#[derive(Clone, Copy, Debug, PartialEq, Eq)]
pub enum Pull {
    /// The next run of the device.
    Run(Mapping),
    /// The run cannot be closed before the next batch of leaves is supplied.
    Starved,
    /// The device has no more mappings.
    End,
}

/// The state of a `MappingIterator`, as contracts see it.
pub ghost struct IterView {
    /// The addresses of the device's leaves, in key order.
    pub leaves: Seq<u64>,
    /// The most leaves that are held at a time.
    pub batch_size: nat,
    /// How many leaves have been supplied so far.
    pub loaded: nat,
    /// The entries supplied and not yet passed, in order.
    pub known: Seq<Entry>,
    /// The run that was open when the iterator last starved.
    pub run: Option<Mapping>,
}

impl IterView {
    /// What the invariant of an iterator says of its state.
    pub open spec fn wf(self) -> bool {
        &&& self.batch_size >= 1
        &&& self.loaded <= self.leaves.len()
        &&& self.run is Some ==> well_formed(self.run->0)
    }

    /// The state before any leaf was supplied.
    pub open spec fn fresh(leaves: Seq<u64>, batch_size: nat) -> IterView {
        IterView { leaves, batch_size, loaded: 0, known: Seq::empty(), run: None }
    }

    /// The supplied entries are used up and leaves are left to read.
    pub open spec fn starved(self) -> bool {
        self.known.len() == 0 && self.loaded < self.leaves.len()
    }

    /// The addresses of the next batch: the leaves that follow the supplied
    /// ones, `batch_size` of them at most. Empty unless starved.
    pub open spec fn wanted(self) -> Seq<u64> {
        if self.starved() {
            if self.loaded + self.batch_size < self.leaves.len() {
                self.leaves.subrange(self.loaded as int, (self.loaded + self.batch_size) as int)
            } else {
                self.leaves.subrange(self.loaded as int, self.leaves.len() as int)
            }
        } else {
            Seq::empty()
        }
    }

    /// The leaves `future` are as many as are left to supply.
    pub open spec fn awaits(self, future: Seq<Leaf>) -> bool {
        self.loaded + future.len() == self.leaves.len()
    }

    /// The entries to come, where the leaves not yet supplied are
    /// `future`.
    pub open spec fn to_come(self, future: Seq<Leaf>) -> Seq<Entry> {
        self.known + entries_of(future)
    }

    /// The runs to come, where the leaves not yet supplied are `future`:
    /// those that the entries to come coalesce into, behind the open run
    /// where there is one.
    pub open spec fn runs_to_come(self, future: Seq<Leaf>) -> Seq<Mapping> {
        match self.run {
            Some(m) => runs_after(m, self.to_come(future)),
            None => runs(self.to_come(future)),
        }
    }

    /// The entries to come are tame, and an open run ends in range before
    /// them.
    pub open spec fn tame(self, future: Seq<Leaf>) -> bool {
        &&& tame(self.to_come(future))
        &&& self.run matches Some(m) ==> {
            &&& end_of(m) <= u64::MAX
            &&& m.1.block + m.2 <= u64::MAX
            &&& self.to_come(future).len() > 0 ==> end_of(m) <= self.to_come(future)[0].0
        }
    }

    /// The state after the decoded batch was handed in.
    pub open spec fn supply(self, batch: Seq<Leaf>) -> IterView {
        IterView { loaded: self.loaded + batch.len(), known: entries_of(batch), ..self }
    }

    /// The entry under the cursor.
    pub open spec fn current(self) -> Option<Entry> {
        if self.known.len() > 0 {
            Some(self.known[0])
        } else {
            None
        }
    }

    /// The state after the cursor moved past one entry.
    pub open spec fn step(self) -> IterView {
        if self.known.len() > 0 {
            IterView { known: self.known.drop_first(), ..self }
        } else {
            self
        }
    }

    /// The state with a run open on the entry under the cursor, where none
    /// was open.
    pub open spec fn opened(self) -> IterView {
        if self.run is None && self.known.len() > 0 {
            IterView {
                known: self.known.drop_first(),
                run: Some(opening(self.known[0])),
                ..self
            }
        } else {
            self
        }
    }

    /// The next run: the state after it was asked for, and the answer.
    ///
    /// The open run takes in the known entries that follow it. It is
    /// handed out when an entry that does not follow it is known, or when
    /// no leaf is left; while neither is known the iterator starves with
    /// the run still open. Where an entry is known and a sum of the rule
    /// overflows on the run, the answer is the error.
    pub open spec fn pull(self) -> (IterView, Result<Pull, MergeError>) {
        let s = self.opened();
        match s.run {
            None => if s.loaded < s.leaves.len() {
                (s, Ok(Pull::Starved))
            } else {
                (s, Ok(Pull::End))
            },
            Some(m) => {
                let n = absorbed(m, s.known);
                let r = grown(m, n);
                let rest = s.known.skip(n as int);
                if rest.len() > 0 {
                    if overflows(r) {
                        (IterView { known: rest, run: Some(r), ..s }, Err(MergeError::Overflow))
                    } else {
                        (IterView { known: rest, run: None, ..s }, Ok(Pull::Run(r)))
                    }
                } else if s.loaded < s.leaves.len() {
                    (IterView { known: rest, run: Some(r), ..s }, Ok(Pull::Starved))
                } else {
                    (IterView { known: rest, run: None, ..s }, Ok(Pull::Run(r)))
                }
            },
        }
    }
}

/// A forward cursor over the mappings of one device, leaf by leaf.
///
/// The iterator holds one batch of decoded leaves at a time. When the
/// batch is used up it starves: `wanted` names the leaves to read next and
/// `supply` takes them in. Leaves are asked for in order and once each.
pub struct MappingIterator {
    leaves: Vec<u64>,
    batch_size: usize,
    cached_leaves: Vec<Leaf>,
    loaded: usize,
    leaf: usize,
    entry: usize,
    run: Option<Mapping>,
}

/// The entries of `cached` from the entry `entry` of the leaf `leaf` on.
spec fn entries_from(cached: Seq<Leaf>, leaf: int, entry: int) -> Seq<Entry> {
    if 0 <= leaf < cached.len() {
        cached[leaf]@.skip(entry) + entries_of(cached.skip(leaf + 1))
    } else {
        Seq::empty()
    }
}

impl View for MappingIterator {
    type V = IterView;

    closed spec fn view(&self) -> IterView {
        IterView {
            leaves: self.leaves@,
            batch_size: self.batch_size as nat,
            loaded: self.loaded as nat,
            known: entries_from(self.cached_leaves@, self.leaf as int, self.entry as int),
            run: self.run,
        }
    }
}

impl MappingIterator {
    /// The number of entries of the leaf under the cursor.
    spec fn leaf_len(&self) -> nat {
        self.cached_leaves[self.leaf as int]@.len()
    }

    /// The cursor is in the cache, at or right after an entry of its leaf.
    spec fn in_cache(&self) -> bool {
        &&& self.batch_size >= 1
        &&& self.loaded <= self.leaves.len()
        &&& self.cached_leaves.len() <= self.batch_size
        &&& self.leaf <= self.cached_leaves.len()
        &&& self.leaf < self.cached_leaves.len() ==> self.entry <= self.leaf_len()
        &&& self.run is Some ==> well_formed(self.run->0)
    }

    /// The invariant of the iterator: the cursor stands on an entry, or the
    /// cache is empty; at most `batch_size` leaves are held; an open run is
    /// well formed.
    pub closed spec fn wf(&self) -> bool {
        &&& self.in_cache()
        &&& self.leaf < self.cached_leaves.len() ==> self.entry < self.leaf_len()
        &&& self.leaf >= self.cached_leaves.len() ==> self.cached_leaves.len() == 0 && self.leaf
            == 0 && self.entry == 0
    }

    /// The invariant, as far as the view shows it.
    pub proof fn lemma_wf(&self)
        requires
            self.wf(),
        ensures
            self@.wf(),
    {
    }

    /// An iterator over the leaves at the addresses `leaves`, which holds
    /// `batch_size` of them at a time. Nothing is loaded yet.
    pub fn new(leaves: Vec<u64>, batch_size: usize) -> (r: Self)
        requires
            batch_size >= 1,
        ensures
            r.wf(),
            r@ == IterView::fresh(leaves@, batch_size as nat),
    {
        MappingIterator {
            leaves,
            batch_size,
            cached_leaves: Vec::new(),
            loaded: 0,
            leaf: 0,
            entry: 0,
            run: None,
        }
    }

    /// The addresses of the leaves to read and decode next; empty unless
    /// the iterator is starved.
    pub fn wanted(&self) -> (r: &[u64])
        requires
            self.wf(),
        ensures
            r@ == self@.wanted(),
            r@.len() <= self@.batch_size,
            r@.len() > 0 <==> self@.starved(),
    {
        if self.cached_leaves.len() == 0 && self.loaded < self.leaves.len() {
            let room: usize = self.leaves.len() - self.loaded;
            let end: usize = if self.batch_size < room {
                self.loaded + self.batch_size
            } else {
                self.leaves.len()
            };
            slice_subrange(self.leaves.as_slice(), self.loaded, end)
        } else {
            slice_subrange(self.leaves.as_slice(), 0, 0)
        }
    }

    /// Moves the cursor to the next entry of the cache, and drops the cache
    /// when there is none.
    fn settle(&mut self)
        requires
            old(self).in_cache(),
        ensures
            final(self).wf(),
            final(self)@ == old(self)@,
    {
        while self.leaf < self.cached_leaves.len() && self.entry
            >= self.cached_leaves[self.leaf].entries.len()
            invariant
                self.in_cache(),
                self@ == old(self)@,
            decreases self.cached_leaves.len() - self.leaf,
        {
            proof {
                lemma_entries_from_next(self.cached_leaves@, self.leaf as int);
            }
            self.leaf = self.leaf + 1;
            self.entry = 0;
        }
        if self.leaf >= self.cached_leaves.len() {
            self.cached_leaves = Vec::new();
            self.leaf = 0;
            self.entry = 0;
        }
    }

    /// Takes in the decoded leaves of the batch that `wanted` named.
    pub fn supply(&mut self, batch: Vec<Leaf>)
        requires
            old(self).wf(),
            old(self)@.starved(),
            batch@.len() == old(self)@.wanted().len(),
        ensures
            final(self).wf(),
            final(self)@ == old(self)@.supply(batch@),
    {
        proof {
            assert(batch@.skip(1) == batch@.drop_first());
            assert(batch@[0]@.skip(0) == batch@[0]@);
        }
        self.loaded = self.loaded + batch.len();
        self.cached_leaves = batch;
        self.leaf = 0;
        self.entry = 0;
        self.settle();
    }

    /// The entry under the cursor, if one is loaded.
    pub fn get(&self) -> (r: Option<(u64, &BlockTime)>)
        requires
            self.wf(),
        ensures
            match r {
                Some((k, v)) => self@.current() == Some((k, *v)),
                None => self@.current() is None,
            },
    {
        if self.leaf < self.cached_leaves.len() {
            let e = &self.cached_leaves[self.leaf].entries[self.entry];
            Some((e.0, &e.1))
        } else {
            None
        }
    }

    /// The next run of the device, `Pull::End` after the last one, or
    /// `Pull::Starved` when the next batch of leaves is needed first: then
    /// the run read so far stays open, and the call is made again after
    /// `supply`.
    pub fn next_range(&mut self) -> (r: Result<Pull, MergeError>)
        requires
            old(self).wf(),
        ensures
            final(self).wf(),
            (final(self)@, r) == old(self)@.pull(),
    {
        loop
            invariant
                self.wf(),
                self@.pull() == old(self)@.pull(),
            decreases self@.known.len(),
        {
            let cur: Option<Entry> = match self.get() {
                Some((k, v)) => Some((k, *v)),
                None => None,
            };
            proof {
                assert(self@.known.skip(0) =~= self@.known);
            }
            match cur {
                None => {
                    if self.loaded < self.leaves.len() {
                        return Ok(Pull::Starved);
                    }
                    match self.run {
                        Some(m) => {
                            self.run = None;
                            return Ok(Pull::Run(m));
                        },
                        None => {
                            return Ok(Pull::End);
                        },
                    }
                },
                Some(e) => {
                    match self.run {
                        None => {
                            self.run = Some((e.0, e.1, 1));
                            self.step();
                        },
                        Some(m) => {
                            let key: Option<u64> = m.0.checked_add(m.2);
                            let block: Option<u64> = m.1.block.checked_add(m.2);
                            if key.is_none() || block.is_none() || m.2 == u64::MAX {
                                return Err(MergeError::Overflow);
                            }
                            if e.0 == key.unwrap() && e.1.block == block.unwrap() && e.1.time
                                == m.1.time {
                                proof {
                                    let rest = self@.known.drop_first();
                                    let n = absorbed(grown(m, 1), rest);
                                    lemma_absorbed_bounds(grown(m, 1), rest);
                                    assert(rest.skip(n as int) =~= self@.known.skip(1 + n as int));
                                }
                                self.run = Some((m.0, m.1, m.2 + 1));
                                self.step();
                            } else {
                                self.run = None;
                                return Ok(Pull::Run(m));
                            }
                        },
                    }
                },
            }
        }
    }

    /// Moves the cursor past the entry under it.
    pub fn step(&mut self)
        requires
            old(self).wf(),
        ensures
            final(self).wf(),
            final(self)@ == old(self)@.step(),
    {
        if self.leaf < self.cached_leaves.len() {
            proof {
                let a = self.cached_leaves@[self.leaf as int]@;
                let b = entries_of(self.cached_leaves@.skip(self.leaf + 1));
                assert((a.skip(self.entry as int) + b).drop_first() =~= a.skip(self.entry + 1) + b);
                assert(self.entry < self.cached_leaves@[self.leaf as int].entries.len());
            }
            self.entry = self.entry + 1;
            self.settle();
        }
    }
}

/// Leaves are asked for in order and once each: a starved iterator wants
/// the addresses that follow those of the leaves supplied so far, a full
/// batch of them unless fewer are left, and the supply moves it past them.
pub proof fn lemma_wanted_is_next(s: IterView, batch: Seq<Leaf>)
    requires
        s.wf(),
        s.starved(),
        batch.len() == s.wanted().len(),
    ensures
        1 <= s.wanted().len() <= s.batch_size,
        s.wanted() == s.leaves.subrange(s.loaded as int, (s.loaded + s.wanted().len()) as int),
        s.supply(batch).loaded == s.loaded + s.wanted().len(),
        s.wanted().len() == s.batch_size || s.supply(batch).loaded == s.leaves.len(),
        s.supply(batch).wf(),
{
}

/// The entries of two sequences of leaves, one after the other.
pub proof fn lemma_entries_of_concat(a: Seq<Leaf>, b: Seq<Leaf>)
    ensures
        entries_of(a + b) == entries_of(a) + entries_of(b),
    decreases a.len(),
{
    if a.len() == 0 {
        assert(a + b =~= b);
    } else {
        assert((a + b).drop_first() =~= a.drop_first() + b);
        lemma_entries_of_concat(a.drop_first(), b);
    }
    assert(entries_of(a + b) =~= entries_of(a) + entries_of(b));
}

/// A pull follows the runs of the device: a run that it hands out is the
/// first of the runs to come, whatever the leaves not yet supplied hold;
/// while it starves the runs to come are the same; at the end none is to
/// come.
pub proof fn lemma_pull_follows_runs(s: IterView, future: Seq<Leaf>)
    requires
        s.wf(),
        s.awaits(future),
    ensures
        s.pull().0.awaits(future),
        match s.pull().1 {
            Ok(Pull::Run(m)) => s.runs_to_come(future) == seq![m] + s.pull().0.runs_to_come(future)
                && s.pull().0.run is None,
            Ok(Pull::Starved) => s.runs_to_come(future) == s.pull().0.runs_to_come(future)
                && s.pull().0.starved(),
            Ok(Pull::End) => s.runs_to_come(future) == Seq::<Mapping>::empty() && s.pull().0 == s
                && s.known.len() == 0 && s.run is None,
            Err(_) => true,
        },
{
    let o = s.opened();
    let tail = entries_of(future);
    if s.run is None && s.known.len() > 0 {
        assert((s.known + tail).drop_first() =~= o.known + tail);
    }
    assert(s.runs_to_come(future) == o.runs_to_come(future));
    match o.run {
        None => {
            if o.loaded >= o.leaves.len() {
                assert(future =~= Seq::<Leaf>::empty());
                assert(o.known + tail =~= Seq::<Entry>::empty());
            }
        },
        Some(m) => {
            let n = absorbed(m, o.known);
            let rest = o.known.skip(n as int);
            lemma_absorbed_bounds(m, o.known);
            lemma_absorbed_concat(m, o.known, tail);
            if rest.len() > 0 {
                assert((o.known + tail).skip(n as int) =~= rest + tail);
            } else if o.loaded < o.leaves.len() {
                let n2 = absorbed(grown(m, n), tail);
                lemma_absorbed_bounds(grown(m, n), tail);
                assert((o.known + tail).skip((n + n2) as int) =~= tail.skip(n2 as int));
                assert(rest + tail =~= tail);
            } else {
                assert(future =~= Seq::<Leaf>::empty());
                assert(o.known + tail =~= o.known);
                assert(rest + tail =~= Seq::<Entry>::empty());
            }
        },
    }
}

/// After a supply the runs to come are those that were to come before it
/// with the batch ahead of the other leaves.
pub proof fn lemma_supply_follows_runs(s: IterView, batch: Seq<Leaf>, future: Seq<Leaf>)
    requires
        s.starved(),
        s.awaits(batch + future),
    ensures
        s.supply(batch).awaits(future),
        s.supply(batch).runs_to_come(future) == s.runs_to_come(batch + future),
{
    lemma_entries_of_concat(batch, future);
    assert(s.known + entries_of(batch + future) =~= entries_of(batch) + entries_of(future));
}

/// A pull hands out well-formed runs only, and leaves the state well formed.
pub proof fn lemma_pull_wf(s: IterView)
    requires
        s.wf(),
    ensures
        s.pull().0.wf(),
        s.pull().0.leaves == s.leaves,
        s.pull().0.batch_size == s.batch_size,
        s.pull().0.loaded == s.loaded,
        s.pull().1 matches Ok(Pull::Run(m)) ==> well_formed(m) && !s.pull().0.starved(),
        s.pull().1 is Err ==> !s.pull().0.starved(),
{
    let o = s.opened();
    if o.run is Some {
        lemma_absorbed_bounds(o.run->0, o.known);
    }
}

proof fn lemma_entries_from_next(cached: Seq<Leaf>, leaf: int)
    requires
        0 <= leaf < cached.len(),
    ensures
        entries_from(cached, leaf, cached[leaf]@.len() as int) == entries_from(cached, leaf + 1, 0),
{
    let tail = cached.skip(leaf + 1);
    if leaf + 1 < cached.len() {
        assert(tail.drop_first() == cached.skip(leaf + 2));
        assert(tail[0] == cached[leaf + 1]);
        assert(cached[leaf + 1]@.skip(0) == cached[leaf + 1]@);
        assert(entries_from(cached, leaf, cached[leaf]@.len() as int) =~= entries_of(tail));
    } else {
        assert(entries_from(cached, leaf, cached[leaf]@.len() as int) =~= Seq::<Entry>::empty());
    }
}

/// On tame entries a pull does not fail, and leaves tame entries to come;
/// a run that it hands out ends in range.
pub proof fn lemma_pull_tame(s: IterView, future: Seq<Leaf>)
    requires
        s.wf(),
        s.awaits(future),
        s.tame(future),
    ensures
        s.pull().1 is Ok,
        s.pull().0.tame(future),
        s.pull().1 matches Ok(Pull::Run(m)) ==> end_of(m) <= u64::MAX,
{
    let o = s.opened();
    let tail = entries_of(future);
    let all = s.to_come(future);
    if s.run is None && s.known.len() > 0 {
        assert(all[0] == s.known[0]);
        assert(o.known + tail =~= all.skip(1));
        lemma_tame_skip(all, 1);
        if all.len() > 1 {
            assert(all.skip(1)[0] == all[1]);
        }
    }
    match o.run {
        None => {},
        Some(m) => {
            let taken = absorbed(m, o.known);
            let n = taken as int;
            let rest = o.known.skip(n);
            let left = o.to_come(future);
            lemma_absorbed_bounds(m, o.known);
            lemma_tame_skip(left, 0);
            assert(left.skip(0) =~= left);
            assert(o.known =~= left.take(o.known.len() as int));
            assert forall|i: int| 0 <= i < o.known.len() implies (#[trigger] o.known[i]).0
                < u64::MAX && o.known[i].1.block < u64::MAX by {
                assert(o.known[i] == left[i]);
            }
            assert forall|i: int, j: int| 0 <= i < j < o.known.len() implies (
            #[trigger] o.known[i]).0 < (#[trigger] o.known[j]).0 by {
                assert(o.known[i] == left[i]);
                assert(o.known[j] == left[j]);
            }
            if o.known.len() > 0 {
                assert(o.known[0] == left[0]);
            }
            lemma_absorbed_tame(m, o.known);
            lemma_tame_skip(left, n);
            assert(left.skip(n) =~= rest + tail);
            if rest.len() > 0 {
                assert(rest[0] == o.known[n]);
                assert((rest + tail)[0] == rest[0]);
            } else if tail.len() > 0 {
                assert((rest + tail)[0] == left[n]);
                if n > 0 {
                    lemma_absorbed_keys(m, o.known, n - 1);
                    assert(left[n - 1] == o.known[n - 1]);
                    assert(left[n - 1].0 < left[n].0);
                }
            }
        },
    }
}

/// A supply hands tame entries on.
pub proof fn lemma_supply_tame(s: IterView, batch: Seq<Leaf>, future: Seq<Leaf>)
    requires
        s.starved(),
        s.tame(batch + future),
    ensures
        s.supply(batch).tame(future),
{
    lemma_entries_of_concat(batch, future);
    assert(s.known + entries_of(batch + future) =~= entries_of(batch) + entries_of(future));
}

} // verus!
