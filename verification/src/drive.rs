use vstd::prelude::*;
use crate::coalesce::{lemma_runs_ordered, rising, runs, tame};
use crate::error::MergeError;
use crate::mapping::{Entry, Mapping};
use crate::mapping_iterator::{
    Leaf, Pull, entries_of, lemma_pull_follows_runs, lemma_pull_wf, lemma_supply_follows_runs,
};
use crate::merge::{
    Side, lemma_fresh_to_come, lemma_next_follows_merged, lemma_supply_follows_merged,
};
use crate::overlay::{lemma_merged_with_itself, merged, total_len};
use crate::pipeline::{
    ActionView, ProducerView, Run, SourceView, lemma_poll_follows_source, lemma_producer_tame,
    lemma_producer_wf, lemma_supply_follows_source, run_of,
};

verus! {

/// How a run of the producer ends within `polls` polls: the program
/// polls, hands to a side that is to be read the next leaves of its device,
/// of which `base` and `overlay` are those not yet supplied, and sends each
/// batch. The run ends with the records sent when the producer is done, or
/// with the error that stops it; `None` where the polls do not suffice.
pub open spec fn driven(p: ProducerView, base: Seq<Leaf>, overlay: Seq<Leaf>, polls: nat) -> Option<
    Result<Seq<Run>, MergeError>,
>
    decreases polls,
{
    if polls == 0 {
        None
    } else {
        match p.poll().1 {
            Ok(ActionView::Done) => Some(Ok(Seq::empty())),
            Ok(ActionView::Continue) => driven(p.poll().0, base, overlay, (polls - 1) as nat),
            Ok(ActionView::Send(batch)) => match driven(
                p.poll().0,
                base,
                overlay,
                (polls - 1) as nat,
            ) {
                Some(Ok(rest)) => Some(Ok(batch + rest)),
                end => end,
            },
            Ok(ActionView::Read(side)) => {
                let n = p.wanted(side).len() as int;
                match side {
                    Side::Base => match p.supply(side, base.take(n)).1 {
                        Ok(_) => driven(
                            p.supply(side, base.take(n)).0,
                            base.skip(n),
                            overlay,
                            (polls - 1) as nat,
                        ),
                        Err(e) => Some(Err(e)),
                    },
                    Side::Overlay => match p.supply(side, overlay.take(n)).1 {
                        Ok(_) => driven(
                            p.supply(side, overlay.take(n)).0,
                            base,
                            overlay.skip(n),
                            (polls - 1) as nat,
                        ),
                        Err(e) => Some(Err(e)),
                    },
                }
            },
            Err(e) => Some(Err(e)),
        }
    }
}

/// A bound on the polls that a run of the producer takes: two for each
/// leaf that is not yet supplied, one for each block that the source has
/// yet to hand out, and a few to end.
pub open spec fn effort(p: ProducerView, base: Seq<Leaf>, overlay: Seq<Leaf>) -> nat {
    if p.ended {
        0
    } else {
        2 + 2 * (base.len() + overlay.len()) + match p.source {
            SourceView::Single(it) => total_len(it.runs_to_come(base)) + if it.known.len() > 0 {
                1nat
            } else {
                0nat
            },
            SourceView::Merge(m) => m.remaining(base, overlay),
        }
    }
}

/// A program that drives the producer to its end has sent the records that
/// the producer had to send when it began, in their order.
pub proof fn lemma_driven_sends_all(
    p: ProducerView,
    base: Seq<Leaf>,
    overlay: Seq<Leaf>,
    polls: nat,
)
    requires
        p.wf(),
        p.sound(),
        p.awaits(base, overlay),
    ensures
        driven(p, base, overlay, polls) matches Some(Ok(sent)) ==> sent == p.to_send(base, overlay),
    decreases polls,
{
    if polls > 0 {
        let next = p.poll().0;
        let rest = (polls - 1) as nat;
        lemma_poll_follows_source(p, base, overlay);
        lemma_producer_wf(p, Side::Base, Seq::empty());
        match p.poll().1 {
            Ok(ActionView::Done) => {},
            Ok(ActionView::Continue) => {
                lemma_driven_sends_all(next, base, overlay, rest);
            },
            Ok(ActionView::Send(batch)) => {
                lemma_driven_sends_all(next, base, overlay, rest);
            },
            Ok(ActionView::Read(side)) => {
                let n = p.wanted(side).len() as int;
                match side {
                    Side::Base => {
                        let batch = base.take(n);
                        assert(batch + base.skip(n) =~= base);
                        lemma_producer_wf(p, side, batch);
                        lemma_supply_follows_source(p, side, batch, base.skip(n), overlay);
                        if p.supply(side, batch).1 is Ok {
                            lemma_driven_sends_all(
                                p.supply(side, batch).0,
                                base.skip(n),
                                overlay,
                                rest,
                            );
                        }
                    },
                    Side::Overlay => {
                        let batch = overlay.take(n);
                        assert(batch + overlay.skip(n) =~= overlay);
                        lemma_producer_wf(p, side, batch);
                        lemma_supply_follows_source(p, side, batch, base, overlay.skip(n));
                        if p.supply(side, batch).1 is Ok {
                            lemma_driven_sends_all(
                                p.supply(side, batch).0,
                                base,
                                overlay.skip(n),
                                rest,
                            );
                        }
                    },
                }
            },
            Err(_) => {},
        }
    }
}

proof fn lemma_supply_keeps_effort(
    p: ProducerView,
    side: Side,
    batch: Seq<Leaf>,
    base: Seq<Leaf>,
    overlay: Seq<Leaf>,
)
    requires
        p.wf(),
        p.sound(),
        !p.ended,
        p.pending(side),
        batch.len() >= 1,
        side == Side::Base ==> p.awaits(batch + base, overlay),
        side == Side::Overlay ==> p.awaits(base, batch + overlay),
    ensures
        p.supply(side, batch).1 is Ok && side == Side::Base ==> effort(
            p.supply(side, batch).0,
            base,
            overlay,
        ) < effort(p, batch + base, overlay),
        p.supply(side, batch).1 is Ok && side == Side::Overlay ==> effort(
            p.supply(side, batch).0,
            base,
            overlay,
        ) < effort(p, base, batch + overlay),
{
    match p.source {
        SourceView::Single(it) => {
            lemma_supply_follows_runs(it, batch, base);
        },
        SourceView::Merge(m) => {
            match side {
                Side::Base => lemma_supply_follows_merged(m, side, batch, base),
                Side::Overlay => lemma_supply_follows_merged(m, side, batch, overlay),
            }
        },
    }
}

/// A run of the producer ends: within the polls that `effort` bounds, and
/// one more, the producer is done or an error has stopped it.
pub proof fn lemma_driven_ends(p: ProducerView, base: Seq<Leaf>, overlay: Seq<Leaf>, polls: nat)
    requires
        p.wf(),
        p.sound(),
        p.awaits(base, overlay),
        polls > effort(p, base, overlay),
    ensures
        driven(p, base, overlay, polls) is Some,
    decreases polls,
{
    let next = p.poll().0;
    let rest = (polls - 1) as nat;
    lemma_poll_follows_source(p, base, overlay);
    lemma_producer_wf(p, Side::Base, Seq::empty());
    if !p.ended && !p.pending(Side::Base) && !p.pending(Side::Overlay) {
        match p.source {
            SourceView::Single(it) => {
                lemma_pull_follows_runs(it, base);
                lemma_pull_wf(it);
                match it.pull().1 {
                    Ok(Pull::Run(m)) => {
                        assert((seq![m] + it.pull().0.runs_to_come(base)).drop_first()
                            =~= it.pull().0.runs_to_come(base));
                    },
                    _ => {},
                }
            },
            SourceView::Merge(m) => {
                lemma_next_follows_merged(m, base, overlay);
            },
        }
    }
    match p.poll().1 {
        Ok(ActionView::Done) => {},
        Ok(ActionView::Continue) => {
            lemma_driven_ends(next, base, overlay, rest);
        },
        Ok(ActionView::Send(batch)) => {
            lemma_driven_ends(next, base, overlay, rest);
        },
        Ok(ActionView::Read(side)) => {
            let n = p.wanted(side).len() as int;
            match side {
                Side::Base => {
                    let batch = base.take(n);
                    assert(batch + base.skip(n) =~= base);
                    lemma_producer_wf(p, side, batch);
                    lemma_supply_follows_source(p, side, batch, base.skip(n), overlay);
                    lemma_supply_keeps_effort(p, side, batch, base.skip(n), overlay);
                    if p.supply(side, batch).1 is Ok {
                        lemma_driven_ends(p.supply(side, batch).0, base.skip(n), overlay, rest);
                    }
                },
                Side::Overlay => {
                    let batch = overlay.take(n);
                    assert(batch + overlay.skip(n) =~= overlay);
                    lemma_producer_wf(p, side, batch);
                    lemma_supply_follows_source(p, side, batch, base, overlay.skip(n));
                    lemma_supply_keeps_effort(p, side, batch, base, overlay.skip(n));
                    if p.supply(side, batch).1 is Ok {
                        lemma_driven_ends(p.supply(side, batch).0, base, overlay.skip(n), rest);
                    }
                },
            }
        },
        Err(_) => {},
    }
}

proof fn lemma_driven_is_ok(p: ProducerView, base: Seq<Leaf>, overlay: Seq<Leaf>, polls: nat)
    requires
        p.wf(),
        p.sound(),
        p.awaits(base, overlay),
        p.tame(base, overlay),
    ensures
        !(driven(p, base, overlay, polls) matches Some(Err(_))),
    decreases polls,
{
    if polls > 0 {
        let next = p.poll().0;
        let rest = (polls - 1) as nat;
        lemma_poll_follows_source(p, base, overlay);
        lemma_producer_wf(p, Side::Base, Seq::empty());
        lemma_producer_tame(p, Side::Base, Seq::empty(), base, overlay);
        match p.poll().1 {
            Ok(ActionView::Done) => {},
            Ok(ActionView::Continue) => {
                lemma_driven_is_ok(next, base, overlay, rest);
            },
            Ok(ActionView::Send(batch)) => {
                lemma_driven_is_ok(next, base, overlay, rest);
            },
            Ok(ActionView::Read(side)) => {
                let n = p.wanted(side).len() as int;
                match side {
                    Side::Base => {
                        let batch = base.take(n);
                        assert(batch + base.skip(n) =~= base);
                        lemma_producer_wf(p, side, batch);
                        lemma_supply_follows_source(p, side, batch, base.skip(n), overlay);
                        lemma_producer_tame(p, side, batch, base.skip(n), overlay);
                        lemma_driven_is_ok(p.supply(side, batch).0, base.skip(n), overlay, rest);
                    },
                    Side::Overlay => {
                        let batch = overlay.take(n);
                        assert(batch + overlay.skip(n) =~= overlay);
                        lemma_producer_wf(p, side, batch);
                        lemma_supply_follows_source(p, side, batch, base, overlay.skip(n));
                        lemma_producer_tame(p, side, batch, base, overlay.skip(n));
                        lemma_driven_is_ok(p.supply(side, batch).0, base, overlay.skip(n), rest);
                    },
                }
            },
            Err(_) => {},
        }
    }
}

/// On tame entries a run of the producer does not fail: within the polls
/// that `effort` bounds, and one more, the producer is done and the program
/// has sent the records that the producer had to send when it began.
pub proof fn lemma_driven_succeeds(
    p: ProducerView,
    base: Seq<Leaf>,
    overlay: Seq<Leaf>,
    polls: nat,
)
    requires
        p.wf(),
        p.sound(),
        p.awaits(base, overlay),
        p.tame(base, overlay),
        polls > effort(p, base, overlay),
    ensures
        driven(p, base, overlay, polls) == Some(
            Ok::<Seq<Run>, MergeError>(p.to_send(base, overlay)),
        ),
    decreases polls,
{
    lemma_driven_ends(p, base, overlay, polls);
    lemma_driven_sends_all(p, base, overlay, polls);
    lemma_driven_is_ok(p, base, overlay, polls);
}

/// A dump, driven to its end, sends the runs of the device: those that its
/// entries coalesce into.
pub proof fn lemma_dump_sends_runs(
    leaves: Seq<u64>,
    batch_size: nat,
    device: Seq<Leaf>,
    polls: nat,
)
    requires
        batch_size >= 1,
        device.len() == leaves.len(),
    ensures
        driven(
            ProducerView::dump_single_device(leaves, batch_size),
            device,
            Seq::empty(),
            polls,
        ) matches Some(Ok(sent)) ==> sent == runs(entries_of(device)).map_values(
            |m: Mapping| run_of(m),
        ),
{
    let p = ProducerView::dump_single_device(leaves, batch_size);
    lemma_driven_sends_all(p, device, Seq::empty(), polls);
    assert(Seq::<Entry>::empty() + entries_of(device) =~= entries_of(device));
    assert(p.to_send(device, Seq::empty()) =~= runs(entries_of(device)).map_values(
        |m: Mapping| run_of(m),
    ));
}

/// A merge, driven to its end, sends the merged runs of the two devices:
/// those of the entries of the overlay laid over those of the entries of
/// the base.
pub proof fn lemma_merge_sends_merged(
    base_leaves: Seq<u64>,
    overlay_leaves: Seq<u64>,
    batch_size: nat,
    base: Seq<Leaf>,
    overlay: Seq<Leaf>,
    polls: nat,
)
    requires
        batch_size >= 1,
        base.len() == base_leaves.len(),
        overlay.len() == overlay_leaves.len(),
    ensures
        driven(
            ProducerView::merge(base_leaves, overlay_leaves, batch_size),
            base,
            overlay,
            polls,
        ) matches Some(Ok(sent)) ==> sent == merged(
            runs(entries_of(base)),
            runs(entries_of(overlay)),
        ).map_values(|m: Mapping| run_of(m)),
{
    let p = ProducerView::merge(base_leaves, overlay_leaves, batch_size);
    lemma_fresh_to_come(base_leaves, overlay_leaves, batch_size, base, overlay);
    lemma_driven_sends_all(p, base, overlay, polls);
    assert(p.to_send(base, overlay) =~= merged(
        runs(entries_of(base)),
        runs(entries_of(overlay)),
    ).map_values(|m: Mapping| run_of(m)));
}

/// The dump of a tame device, in full: a program that drives the producer
/// gets, within a bounded number of polls and without an error, the runs of
/// the device.
pub proof fn lemma_dump_of_tame_device(
    leaves: Seq<u64>,
    batch_size: nat,
    device: Seq<Leaf>,
    polls: nat,
)
    requires
        batch_size >= 1,
        device.len() == leaves.len(),
        tame(entries_of(device)),
        polls > effort(
            ProducerView::dump_single_device(leaves, batch_size),
            device,
            Seq::empty(),
        ),
    ensures
        driven(ProducerView::dump_single_device(leaves, batch_size), device, Seq::empty(), polls)
            == Some(
            Ok::<Seq<Run>, MergeError>(
                runs(entries_of(device)).map_values(|m: Mapping| run_of(m)),
            ),
        ),
{
    let p = ProducerView::dump_single_device(leaves, batch_size);
    assert(Seq::<Entry>::empty() + entries_of(device) =~= entries_of(device));
    lemma_driven_succeeds(p, device, Seq::empty(), polls);
    assert(p.to_send(device, Seq::empty()) =~= runs(entries_of(device)).map_values(
        |m: Mapping| run_of(m),
    ));
}

/// The merge of two tame devices, in full: a program that drives the
/// producer gets, within a bounded number of polls and without an error,
/// the merged runs of the two devices.
pub proof fn lemma_merge_of_tame_devices(
    base_leaves: Seq<u64>,
    overlay_leaves: Seq<u64>,
    batch_size: nat,
    base: Seq<Leaf>,
    overlay: Seq<Leaf>,
    polls: nat,
)
    requires
        batch_size >= 1,
        base.len() == base_leaves.len(),
        overlay.len() == overlay_leaves.len(),
        tame(entries_of(base)),
        tame(entries_of(overlay)),
        polls > effort(
            ProducerView::merge(base_leaves, overlay_leaves, batch_size),
            base,
            overlay,
        ),
    ensures
        driven(ProducerView::merge(base_leaves, overlay_leaves, batch_size), base, overlay, polls)
            == Some(
            Ok::<Seq<Run>, MergeError>(
                merged(runs(entries_of(base)), runs(entries_of(overlay))).map_values(
                    |m: Mapping| run_of(m),
                ),
            ),
        ),
{
    let p = ProducerView::merge(base_leaves, overlay_leaves, batch_size);
    lemma_fresh_to_come(base_leaves, overlay_leaves, batch_size, base, overlay);
    assert(Seq::<Entry>::empty() + entries_of(base) =~= entries_of(base));
    assert(Seq::<Entry>::empty() + entries_of(overlay) =~= entries_of(overlay));
    lemma_driven_succeeds(p, base, overlay, polls);
    assert(p.to_send(base, overlay) =~= merged(
        runs(entries_of(base)),
        runs(entries_of(overlay)),
    ).map_values(|m: Mapping| run_of(m)));
}

/// A merge with a device that maps nothing, driven to its end, sends what
/// a dump of the other device sends, whichever of the two maps nothing.
pub proof fn lemma_merge_with_nothing_is_dump(
    leaves: Seq<u64>,
    empty_leaves: Seq<u64>,
    batch_size: nat,
    device: Seq<Leaf>,
    empty: Seq<Leaf>,
    polls: nat,
    dump_polls: nat,
    dumped: Seq<Run>,
)
    requires
        batch_size >= 1,
        device.len() == leaves.len(),
        empty.len() == empty_leaves.len(),
        entries_of(empty).len() == 0,
        driven(
            ProducerView::dump_single_device(leaves, batch_size),
            device,
            Seq::empty(),
            dump_polls,
        ) == Some(Ok::<Seq<Run>, MergeError>(dumped)),
    ensures
        driven(
            ProducerView::merge(leaves, empty_leaves, batch_size),
            device,
            empty,
            polls,
        ) matches Some(Ok(sent)) ==> sent == dumped,
        driven(
            ProducerView::merge(empty_leaves, leaves, batch_size),
            empty,
            device,
            polls,
        ) matches Some(Ok(sent)) ==> sent == dumped,
{
    assert(entries_of(empty) =~= Seq::<Entry>::empty());
    lemma_merge_sends_merged(leaves, empty_leaves, batch_size, device, empty, polls);
    lemma_merge_sends_merged(empty_leaves, leaves, batch_size, empty, device, polls);
    lemma_dump_sends_runs(leaves, batch_size, device, dump_polls);
}

/// A merge of a device with itself, driven to its end, sends what a dump
/// of the device sends, where the keys of its entries rise.
pub proof fn lemma_merge_with_itself_is_dump(
    leaves: Seq<u64>,
    batch_size: nat,
    device: Seq<Leaf>,
    polls: nat,
    dump_polls: nat,
    dumped: Seq<Run>,
)
    requires
        batch_size >= 1,
        device.len() == leaves.len(),
        rising(entries_of(device)),
        driven(
            ProducerView::dump_single_device(leaves, batch_size),
            device,
            Seq::empty(),
            dump_polls,
        ) == Some(Ok::<Seq<Run>, MergeError>(dumped)),
    ensures
        driven(
            ProducerView::merge(leaves, leaves, batch_size),
            device,
            device,
            polls,
        ) matches Some(Ok(sent)) ==> sent == dumped,
{
    lemma_runs_ordered(entries_of(device));
    lemma_merged_with_itself(runs(entries_of(device)));
    lemma_merge_sends_merged(leaves, leaves, batch_size, device, device, polls);
    lemma_dump_sends_runs(leaves, batch_size, device, dump_polls);
}

} // verus!
