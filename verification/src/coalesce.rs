use vstd::prelude::*;
use crate::mapping::{BlockTime, Entry, Mapping, end_of, value_at, well_formed};
use crate::overlay::{lemma_ordered_cons, lookup, ordered, starts_from, total_len};

verus! {

/// The coalescing rule: the entry is next to the run in key and in data
/// block, and was written at the same time.
pub open spec fn follows(m: Mapping, e: Entry) -> bool {
    &&& e.0 == m.0 + m.2
    &&& e.1.block == m.1.block + m.2
    &&& e.1.time == m.1.time
}

/// One of the sums that the coalescing rule computes on the run leaves the
/// 64-bit range.
pub open spec fn overflows(m: Mapping) -> bool {
    ||| m.0 + m.2 > u64::MAX
    ||| m.1.block + m.2 > u64::MAX
    ||| m.2 + 1 > u64::MAX
}

/// The run, `n` entries longer.
pub open spec fn grown(m: Mapping, n: nat) -> Mapping {
    (m.0, m.1, (m.2 + n) as u64)
}

/// How many entries at the front of `es` the run `m` takes in under the
/// coalescing rule.
pub open spec fn absorbed(m: Mapping, es: Seq<Entry>) -> nat
    decreases es.len(),
{
    if es.len() > 0 && !overflows(m) && follows(m, es[0]) {
        1 + absorbed(grown(m, 1), es.drop_first())
    } else {
        0
    }
}

/// The run that opens on the entry `e`.
pub open spec fn opening(e: Entry) -> Mapping {
    (e.0, e.1, 1u64)
}

/// The runs that the entries `es` coalesce into behind the open run `m`:
/// the run closes before the first entry that it does not take in.
pub open spec fn runs_after(m: Mapping, es: Seq<Entry>) -> Seq<Mapping>
    decreases es.len(), 1int,
{
    proof {
        lemma_absorbed_bounds(m, es);
    }
    seq![grown(m, absorbed(m, es))] + runs(es.skip(absorbed(m, es) as int))
}

/// The runs that the entries `es` coalesce into.
pub open spec fn runs(es: Seq<Entry>) -> Seq<Mapping>
    decreases es.len(), 0int,
{
    if es.len() == 0 {
        Seq::empty()
    } else {
        runs_after(opening(es[0]), es.drop_first())
    }
}

/// The run `b` starts where the coalescing rule lets the run `a` go on.
pub open spec fn adjacent(a: Mapping, b: Mapping) -> bool {
    follows(a, (b.0, b.1))
}

/// The point mappings of a run: one entry for each of its keys.
pub open spec fn points_of_run(m: Mapping) -> Seq<Entry> {
    Seq::new(
        m.2 as nat,
        |i: int| ((m.0 + i) as u64, BlockTime { block: (m.1.block + i) as u64, time: m.1.time }),
    )
}

/// The point mappings of runs, in order.
pub open spec fn points_of(rs: Seq<Mapping>) -> Seq<Entry>
    decreases rs.len(),
{
    if rs.len() == 0 {
        Seq::empty()
    } else {
        points_of_run(rs[0]) + points_of(rs.drop_first())
    }
}

/// What the entries map the key `k` to: the value of the first entry with
/// that key.
pub open spec fn value_of(es: Seq<Entry>, k: int) -> Option<(int, u32)>
    decreases es.len(),
{
    if es.len() == 0 {
        None
    } else if es[0].0 == k {
        Some((es[0].1.block as int, es[0].1.time))
    } else {
        value_of(es.drop_first(), k)
    }
}

/// The keys of the entries rise, and none is the last 64-bit key.
pub open spec fn rising(es: Seq<Entry>) -> bool {
    &&& forall|i: int| 0 <= i < es.len() ==> (#[trigger] es[i]).0 < u64::MAX
    &&& forall|i: int, j: int| 0 <= i < j < es.len() ==> (#[trigger] es[i]).0 < (#[trigger] es[j]).0
}

/// The entries of a device as a pool writes them: the keys rise, and
/// neither a key nor a data block is the last 64-bit number.
pub open spec fn tame(es: Seq<Entry>) -> bool {
    &&& rising(es)
    &&& forall|i: int| 0 <= i < es.len() ==> (#[trigger] es[i]).1.block < u64::MAX
}

/// A run never takes in more entries than its length can count, nor more
/// than there are, and stays well formed.
pub proof fn lemma_absorbed_bounds(m: Mapping, es: Seq<Entry>)
    ensures
        absorbed(m, es) <= es.len(),
        m.2 + absorbed(m, es) <= u64::MAX,
        well_formed(m) ==> well_formed(grown(m, absorbed(m, es))),
    decreases es.len(),
{
    if es.len() > 0 && !overflows(m) && follows(m, es[0]) {
        lemma_absorbed_bounds(grown(m, 1), es.drop_first());
    }
}

/// What a run takes in of two sequences of entries, one after the other:
/// of the second only what follows the whole first.
pub proof fn lemma_absorbed_concat(m: Mapping, a: Seq<Entry>, b: Seq<Entry>)
    ensures
        absorbed(m, a) < a.len() ==> absorbed(m, a + b) == absorbed(m, a),
        absorbed(m, a) >= a.len() ==> absorbed(m, a + b) == a.len() + absorbed(
            grown(m, a.len()),
            b,
        ),
    decreases a.len(),
{
    lemma_absorbed_bounds(m, a);
    if a.len() == 0 {
        assert(a + b =~= b);
    } else if !overflows(m) && follows(m, a[0]) {
        assert((a + b).drop_first() =~= a.drop_first() + b);
        lemma_absorbed_concat(grown(m, 1), a.drop_first(), b);
        lemma_absorbed_bounds(grown(m, 1), a.drop_first());
    }
}

/// A run stops taking in entries only before one that does not follow
/// it, or where a sum of the rule overflows on it.
pub proof fn lemma_absorbed_stops(m: Mapping, es: Seq<Entry>)
    requires
        absorbed(m, es) < es.len(),
    ensures
        overflows(grown(m, absorbed(m, es))) || !follows(
            grown(m, absorbed(m, es)),
            es[absorbed(m, es) as int],
        ),
    decreases es.len(),
{
    if !overflows(m) && follows(m, es[0]) {
        lemma_absorbed_bounds(grown(m, 1), es.drop_first());
        lemma_absorbed_stops(grown(m, 1), es.drop_first());
    }
}

/// Runs are as long as the rule allows: behind an open run, a run and the
/// one after it are never adjacent, unless a sum of the rule overflows on
/// the first.
pub proof fn lemma_runs_after_maximal(m: Mapping, es: Seq<Entry>, i: int)
    requires
        0 <= i,
        i + 1 < runs_after(m, es).len(),
    ensures
        overflows(runs_after(m, es)[i]) || !adjacent(runs_after(m, es)[i], runs_after(m, es)[i + 1]),
    decreases es.len(),
{
    let n = absorbed(m, es);
    let rest = es.skip(n as int);
    lemma_absorbed_bounds(m, es);
    assert(rest.len() > 0);
    let next = opening(rest[0]);
    lemma_absorbed_bounds(next, rest.drop_first());
    if i == 0 {
        lemma_absorbed_stops(m, es);
    } else {
        lemma_runs_after_maximal(next, rest.drop_first(), i - 1);
    }
}

/// The runs of a device are as long as the rule allows: one and the next
/// are never adjacent, unless a sum of the rule overflows on the first.
pub proof fn lemma_runs_maximal(es: Seq<Entry>, i: int)
    requires
        0 <= i,
        i + 1 < runs(es).len(),
    ensures
        overflows(runs(es)[i]) || !adjacent(runs(es)[i], runs(es)[i + 1]),
{
    lemma_runs_after_maximal(opening(es[0]), es.drop_first(), i);
}

/// The entries that a run takes in are the point mappings that lengthen
/// it.
pub proof fn lemma_absorbed_points(m: Mapping, es: Seq<Entry>)
    requires
        well_formed(m),
    ensures
        points_of_run(grown(m, absorbed(m, es))) == points_of_run(m) + es.take(
            absorbed(m, es) as int,
        ),
    decreases es.len(),
{
    let n = absorbed(m, es);
    lemma_absorbed_bounds(m, es);
    if n > 0 {
        let g = grown(m, 1);
        let tail = es.drop_first();
        lemma_absorbed_points(g, tail);
        lemma_absorbed_bounds(g, tail);
        assert(grown(g, absorbed(g, tail)) == grown(m, n));
        assert(points_of_run(g) =~= points_of_run(m) + seq![es[0]]);
        assert(seq![es[0]] + tail.take(n - 1) =~= es.take(n as int));
        assert(points_of_run(m) + seq![es[0]] + tail.take(n - 1) =~= points_of_run(m) + es.take(
            n as int,
        ));
    } else {
        assert(points_of_run(grown(m, 0)) =~= points_of_run(m) + es.take(0));
    }
}

/// Behind an open run nothing is lost or added: the point mappings of the
/// runs are those of the open run and then the entries.
pub proof fn lemma_runs_after_points(m: Mapping, es: Seq<Entry>)
    requires
        well_formed(m),
    ensures
        points_of(runs_after(m, es)) == points_of_run(m) + es,
    decreases es.len(),
{
    let n = absorbed(m, es);
    let rest = es.skip(n as int);
    lemma_absorbed_bounds(m, es);
    lemma_absorbed_points(m, es);
    let rs = runs_after(m, es);
    assert(rs.drop_first() =~= runs(rest));
    if rest.len() > 0 {
        lemma_runs_after_points(opening(rest[0]), rest.drop_first());
        assert(points_of_run(opening(rest[0])) =~= seq![rest[0]]);
        assert(seq![rest[0]] + rest.drop_first() =~= rest);
    }
    assert(points_of(runs(rest)) == rest);
    assert(points_of_run(m) + es.take(n as int) + rest =~= points_of_run(m) + es);
}

/// Coalescing loses and adds nothing: the point mappings of the runs of a
/// device are its entries.
pub proof fn lemma_runs_points(es: Seq<Entry>)
    ensures
        points_of(runs(es)) == es,
{
    if es.len() > 0 {
        lemma_runs_after_points(opening(es[0]), es.drop_first());
        assert(points_of_run(opening(es[0])) =~= seq![es[0]]);
        assert(seq![es[0]] + es.drop_first() =~= es);
    }
}

/// Runs have as many point mappings as their lengths add up to.
pub proof fn lemma_points_total(rs: Seq<Mapping>)
    ensures
        points_of(rs).len() == total_len(rs),
    decreases rs.len(),
{
    if rs.len() > 0 {
        lemma_points_total(rs.drop_first());
    }
}

/// The lengths of the runs of a device add up to the number of its
/// entries: its mapped blocks.
pub proof fn lemma_runs_total(es: Seq<Entry>)
    ensures
        total_len(runs(es)) == es.len(),
{
    lemma_runs_points(es);
    lemma_points_total(runs(es));
}

/// The keys and the data blocks of the entries that a run takes in are
/// those next to it, one after the other.
pub proof fn lemma_absorbed_keys(m: Mapping, es: Seq<Entry>, j: int)
    requires
        0 <= j < absorbed(m, es),
    ensures
        es[j].0 == m.0 + m.2 + j,
        es[j].1.block == m.1.block + m.2 + j,
    decreases es.len(),
{
    lemma_absorbed_bounds(m, es);
    if j > 0 {
        lemma_absorbed_keys(grown(m, 1), es.drop_first(), j - 1);
        assert(es.drop_first()[j - 1] == es[j]);
    }
}

/// Behind an open run that ends before the entries, whose keys rise, the
/// runs are in order.
pub proof fn lemma_runs_after_ordered(m: Mapping, es: Seq<Entry>)
    requires
        well_formed(m),
        end_of(m) <= u64::MAX,
        rising(es),
        es.len() > 0 ==> end_of(m) <= es[0].0,
    ensures
        ordered(runs_after(m, es)),
        starts_from(runs_after(m, es), m.0 as int),
    decreases es.len(),
{
    let taken = absorbed(m, es);
    let n = taken as int;
    let r = grown(m, taken);
    let rest = es.skip(n);
    lemma_absorbed_bounds(m, es);
    if n > 0 {
        lemma_absorbed_keys(m, es, n - 1);
    }
    if rest.len() > 0 {
        let next = opening(rest[0]);
        let tail = rest.drop_first();
        assert(rest[0] == es[n]);
        assert forall|i: int| 0 <= i < tail.len() implies (#[trigger] tail[i]).0 < u64::MAX by {
            assert(tail[i] == es[n + 1 + i]);
        }
        assert forall|i: int, j: int| 0 <= i < j < tail.len() implies (#[trigger] tail[i]).0 < (
        #[trigger] tail[j]).0 by {
            assert(tail[i] == es[n + 1 + i]);
            assert(tail[j] == es[n + 1 + j]);
        }
        if tail.len() > 0 {
            assert(tail[0] == es[n + 1]);
        }
        lemma_runs_after_ordered(next, tail);
        if n > 0 {
            assert(es[n - 1].0 < es[n].0);
        }
        assert forall|i: int| 0 <= i < runs(rest).len() implies end_of(r) <= (#[trigger] runs(
            rest,
        )[i]).0 by {}
    }
    lemma_ordered_cons(r, runs(rest), m.0 as int);
}

/// The runs of a device are in order where the keys of its entries rise.
pub proof fn lemma_runs_ordered(es: Seq<Entry>)
    requires
        rising(es),
    ensures
        ordered(runs(es)),
{
    if es.len() > 0 {
        let tail = es.drop_first();
        assert forall|i: int| 0 <= i < tail.len() implies (#[trigger] tail[i]).0 < u64::MAX by {
            assert(tail[i] == es[i + 1]);
        }
        assert forall|i: int, j: int| 0 <= i < j < tail.len() implies (#[trigger] tail[i]).0 < (
        #[trigger] tail[j]).0 by {
            assert(tail[i] == es[i + 1]);
            assert(tail[j] == es[j + 1]);
        }
        if tail.len() > 0 {
            assert(tail[0] == es[1]);
        }
        lemma_runs_after_ordered(opening(es[0]), tail);
    }
}

proof fn lemma_value_of_concat(a: Seq<Entry>, b: Seq<Entry>, k: int)
    ensures
        value_of(a + b, k) == if value_of(a, k) is Some {
            value_of(a, k)
        } else {
            value_of(b, k)
        },
    decreases a.len(),
{
    if a.len() == 0 {
        assert(a + b =~= b);
    } else {
        assert((a + b).drop_first() =~= a.drop_first() + b);
        lemma_value_of_concat(a.drop_first(), b, k);
    }
}

proof fn lemma_value_of_run(m: Mapping, k: int, from: int)
    requires
        well_formed(m),
        0 <= from <= m.2,
    ensures
        value_of(points_of_run(m).skip(from), k) == if m.0 + from <= k < m.0 + m.2 {
            Some(value_at(m, k))
        } else {
            None
        },
    decreases m.2 - from,
{
    let ps = points_of_run(m).skip(from);
    if from < m.2 {
        assert(ps[0] == points_of_run(m)[from]);
        assert(ps.drop_first() =~= points_of_run(m).skip(from + 1));
        lemma_value_of_run(m, k, from + 1);
    }
}

/// Runs map a key to what their point mappings map it to.
pub proof fn lemma_points_lookup(rs: Seq<Mapping>, k: int)
    requires
        forall|i: int| 0 <= i < rs.len() ==> well_formed(#[trigger] rs[i]),
    ensures
        lookup(rs, k) == value_of(points_of(rs), k),
    decreases rs.len(),
{
    if rs.len() > 0 {
        let tail = rs.drop_first();
        assert forall|i: int| 0 <= i < tail.len() implies well_formed(#[trigger] tail[i]) by {
            assert(tail[i] == rs[i + 1]);
        }
        lemma_points_lookup(tail, k);
        lemma_value_of_run(rs[0], k, 0);
        assert(points_of_run(rs[0]).skip(0) =~= points_of_run(rs[0]));
        lemma_value_of_concat(points_of_run(rs[0]), points_of(tail), k);
    }
}

proof fn lemma_runs_after_well_formed(m: Mapping, es: Seq<Entry>)
    requires
        well_formed(m),
    ensures
        forall|i: int| 0 <= i < runs_after(m, es).len() ==> well_formed(
            #[trigger] runs_after(m, es)[i],
        ),
    decreases es.len(),
{
    let n = absorbed(m, es);
    let rest = es.skip(n as int);
    lemma_absorbed_bounds(m, es);
    if rest.len() > 0 {
        lemma_runs_after_well_formed(opening(rest[0]), rest.drop_first());
    }
    let rs = runs_after(m, es);
    assert forall|i: int| 0 <= i < rs.len() implies well_formed(#[trigger] rs[i]) by {
        if i > 0 {
            let behind = runs_after(opening(rest[0]), rest.drop_first());
            assert(rs[i] == behind[i - 1]);
        }
    }
}

/// The runs of a device map a key to what its entries map it to.
pub proof fn lemma_runs_lookup(es: Seq<Entry>, k: int)
    ensures
        lookup(runs(es), k) == value_of(es, k),
{
    lemma_runs_points(es);
    let rs = runs(es);
    assert forall|i: int| 0 <= i < rs.len() implies well_formed(#[trigger] rs[i]) by {
        lemma_runs_after_well_formed(opening(es[0]), es.drop_first());
        assert(rs[i] == runs_after(opening(es[0]), es.drop_first())[i]);
    }
    lemma_points_lookup(rs, k);
}

/// What is left of tame entries after some of them is tame.
pub proof fn lemma_tame_skip(es: Seq<Entry>, n: int)
    requires
        tame(es),
        0 <= n <= es.len(),
    ensures
        tame(es.skip(n)),
{
    let t = es.skip(n);
    assert forall|i: int| 0 <= i < t.len() implies (#[trigger] t[i]).0 < u64::MAX && t[i].1.block
        < u64::MAX by {
        assert(t[i] == es[n + i]);
    }
    assert forall|i: int, j: int| 0 <= i < j < t.len() implies (#[trigger] t[i]).0 < (
    #[trigger] t[j]).0 by {
        assert(t[i] == es[n + i]);
        assert(t[j] == es[n + j]);
    }
}

/// Before tame entries that start at its end or later, a run whose keys
/// and data blocks stay in range takes entries in without an overflow, and
/// is such a run again before the entries that it leaves.
pub proof fn lemma_absorbed_tame(m: Mapping, es: Seq<Entry>)
    requires
        well_formed(m),
        end_of(m) <= u64::MAX,
        m.1.block + m.2 <= u64::MAX,
        tame(es),
        es.len() > 0 ==> end_of(m) <= es[0].0,
    ensures
        end_of(grown(m, absorbed(m, es))) <= u64::MAX,
        grown(m, absorbed(m, es)).1.block + grown(m, absorbed(m, es)).2 <= u64::MAX,
        absorbed(m, es) < es.len() ==> !overflows(grown(m, absorbed(m, es))) && end_of(
            grown(m, absorbed(m, es)),
        ) <= es[absorbed(m, es) as int].0,
{
    let taken = absorbed(m, es);
    let n = taken as int;
    lemma_absorbed_bounds(m, es);
    if n > 0 {
        lemma_absorbed_keys(m, es, n - 1);
        if n < es.len() {
            assert(es[n - 1].0 < es[n].0);
        }
    }
}

} // verus!
