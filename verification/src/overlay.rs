use vstd::prelude::*;
use crate::coalesce::{adjacent, lemma_runs_lookup, lemma_runs_ordered, rising, runs, value_of};
use crate::mapping::Entry;
use crate::mapping::{BlockTime, Mapping, covers, end_of, value_at, well_formed};
use crate::merge::Side;
use crate::stream::rest_of;

verus! {

/// What the merge does with the two heads.
pub ghost enum Move {
    /// The overlay head ends before the base head starts: it is emitted.
    TakeOverlay,
    /// The base head ends before the overlay head starts: it is emitted.
    TakeBase,
    /// The base head starts first: its keys before the overlay head are
    /// emitted.
    TakeBasePrefix(u64),
    /// The overlay head ends inside the base head: the keys of the base
    /// head up to there are dropped and the overlay head is emitted.
    CutBase(u64),
    /// The overlay head covers the base head to its end: the base head
    /// is dropped.
    DropBase,
}

/// The move for the base head `b` and the overlay head `o`.
pub open spec fn decide(b: Mapping, o: Mapping) -> Move {
    if end_of(o) <= b.0 {
        Move::TakeOverlay
    } else if end_of(b) <= o.0 {
        Move::TakeBase
    } else if b.0 < o.0 {
        Move::TakeBasePrefix((o.0 - b.0) as u64)
    } else if end_of(o) < end_of(b) {
        Move::CutBase((end_of(o) - b.0) as u64)
    } else {
        Move::DropBase
    }
}

/// The runs of one device in order: each is well formed and ends at a
/// 64-bit key, at or before the start of the next one.
pub open spec fn ordered(s: Seq<Mapping>) -> bool {
    &&& forall|i: int| 0 <= i < s.len() ==> well_formed(#[trigger] s[i]) && end_of(s[i]) <= u64::MAX
    &&& forall|i: int, j: int| 0 <= i < j < s.len() ==> end_of(#[trigger] s[i]) <= (#[trigger] s[j]).0
}

/// No run of `s` starts before the key `x`.
pub open spec fn starts_from(s: Seq<Mapping>, x: int) -> bool {
    forall|i: int| 0 <= i < s.len() ==> x <= (#[trigger] s[i]).0
}

/// What the runs map the key `k` to: the value in the first run that
/// holds it.
pub open spec fn lookup(s: Seq<Mapping>, k: int) -> Option<(int, u32)>
    decreases s.len(),
{
    if s.len() == 0 {
        None
    } else if covers(s[0], k) {
        Some(value_at(s[0], k))
    } else {
        lookup(s.drop_first(), k)
    }
}

/// The keys that the runs map.
pub open spec fn keys(s: Seq<Mapping>) -> Set<int> {
    Set::new(|k: int| lookup(s, k) is Some)
}

/// The sum of the lengths of the runs.
pub open spec fn total_len(s: Seq<Mapping>) -> nat
    decreases s.len(),
{
    if s.len() == 0 {
        0
    } else {
        s[0].2 as nat + total_len(s.drop_first())
    }
}

/// The runs that a merge emits for the base runs `b` under the overlay
/// runs `o`: at each step the move that `decide` names for the two heads,
/// and the rest of one device once the other is used up.
pub open spec fn merged(b: Seq<Mapping>, o: Seq<Mapping>) -> Seq<Mapping>
    decreases b.len() + o.len(),
        (if b.len() > 0 && o.len() > 0 && b[0].0 < o[0].0 {
            1int
        } else {
            0int
        }),
{
    if b.len() == 0 {
        o
    } else if o.len() == 0 {
        b
    } else {
        match decide(b[0], o[0]) {
            Move::TakeOverlay => seq![o[0]] + merged(b, o.drop_first()),
            Move::TakeBase => seq![b[0]] + merged(b.drop_first(), o),
            Move::TakeBasePrefix(d) => seq![(b[0].0, b[0].1, d)] + merged(
                b.update(0, rest_of(b[0], d)),
                o,
            ),
            Move::CutBase(d) => seq![o[0]] + merged(
                b.update(0, rest_of(b[0], d)),
                o.drop_first(),
            ),
            Move::DropBase => merged(b.drop_first(), o),
        }
    }
}

/// What two devices map a key to together, the overlay first.
pub open spec fn laid_over(base: Option<(int, u32)>, overlay: Option<(int, u32)>) -> Option<
    (int, u32),
> {
    if overlay is Some {
        overlay
    } else {
        base
    }
}

/// The device that each of the merged runs is taken from.
pub open spec fn merged_sides(b: Seq<Mapping>, o: Seq<Mapping>) -> Seq<Side>
    decreases b.len() + o.len(),
        (if b.len() > 0 && o.len() > 0 && b[0].0 < o[0].0 {
            1int
        } else {
            0int
        }),
{
    if b.len() == 0 {
        Seq::new(o.len(), |i: int| Side::Overlay)
    } else if o.len() == 0 {
        Seq::new(b.len(), |i: int| Side::Base)
    } else {
        match decide(b[0], o[0]) {
            Move::TakeOverlay => seq![Side::Overlay] + merged_sides(b, o.drop_first()),
            Move::TakeBase => seq![Side::Base] + merged_sides(b.drop_first(), o),
            Move::TakeBasePrefix(d) => seq![Side::Base] + merged_sides(
                b.update(0, rest_of(b[0], d)),
                o,
            ),
            Move::CutBase(d) => seq![Side::Overlay] + merged_sides(
                b.update(0, rest_of(b[0], d)),
                o.drop_first(),
            ),
            Move::DropBase => merged_sides(b.drop_first(), o),
        }
    }
}

/// The runs are as long as the coalescing rule allows: none is adjacent to
/// the next.
pub open spec fn maximal(s: Seq<Mapping>) -> bool {
    forall|i: int| 0 <= i && i + 1 < s.len() ==> !adjacent(#[trigger] s[i], s[i + 1])
}

/// What holds of the run `x`, emitted last from the device `side`, and the
/// runs that are left: the next run from the same device will not be
/// adjacent to it.
spec fn parted(x: Mapping, side: Side, b: Seq<Mapping>, o: Seq<Mapping>) -> bool {
    match side {
        Side::Overlay => o.len() > 0 ==> !adjacent(x, o[0]),
        Side::Base => b.len() > 0 ==> end_of(x) <= b[0].0 && (!adjacent(x, b[0]) || (o.len() > 0
            && o[0].0 <= b[0].0 < end_of(o[0]))),
    }
}

proof fn lemma_ordered_drop_first(s: Seq<Mapping>)
    requires
        ordered(s),
        s.len() > 0,
    ensures
        ordered(s.drop_first()),
        starts_from(s.drop_first(), end_of(s[0])),
        starts_from(s, s[0].0 as int),
{
    let t = s.drop_first();
    assert forall|i: int| 0 <= i < t.len() implies well_formed(#[trigger] t[i]) && end_of(t[i])
        <= u64::MAX && end_of(s[0]) <= t[i].0 by {
        assert(t[i] == s[i + 1]);
    }
    assert forall|i: int, j: int| 0 <= i < j < t.len() implies end_of(#[trigger] t[i]) <= (
    #[trigger] t[j]).0 by {
        assert(t[i] == s[i + 1]);
        assert(t[j] == s[j + 1]);
    }
    assert forall|i: int| 0 <= i < s.len() implies s[0].0 <= (#[trigger] s[i]).0 by {
        if i > 0 {
            assert(end_of(s[0]) <= s[i].0);
        }
    }
}

proof fn lemma_ordered_cut(s: Seq<Mapping>, d: u64)
    requires
        ordered(s),
        s.len() > 0,
        0 < d < s[0].2,
    ensures
        ordered(s.update(0, rest_of(s[0], d))),
        starts_from(s.update(0, rest_of(s[0], d)), s[0].0 + d),
        s.update(0, rest_of(s[0], d)).drop_first() == s.drop_first(),
{
    let t = s.update(0, rest_of(s[0], d));
    assert(t.drop_first() =~= s.drop_first());
    assert forall|i: int| 0 <= i < t.len() implies well_formed(#[trigger] t[i]) && end_of(t[i])
        <= u64::MAX && s[0].0 + d <= t[i].0 by {
        if i > 0 {
            assert(t[i] == s[i]);
            assert(end_of(s[0]) <= s[i].0);
        }
    }
    assert forall|i: int, j: int| 0 <= i < j < t.len() implies end_of(#[trigger] t[i]) <= (
    #[trigger] t[j]).0 by {
        assert(t[j] == s[j]);
        if i > 0 {
            assert(t[i] == s[i]);
        } else {
            assert(end_of(s[0]) <= s[j].0);
        }
    }
}

proof fn lemma_lookup_before(s: Seq<Mapping>, x: int, k: int)
    requires
        starts_from(s, x),
        k < x,
    ensures
        lookup(s, k) is None,
    decreases s.len(),
{
    if s.len() > 0 {
        assert(x <= s[0].0);
        let t = s.drop_first();
        assert forall|i: int| 0 <= i < t.len() implies x <= (#[trigger] t[i]).0 by {
            assert(t[i] == s[i + 1]);
        }
        lemma_lookup_before(t, x, k);
    }
}

proof fn lemma_lookup_cons(m: Mapping, s: Seq<Mapping>, k: int)
    ensures
        lookup(seq![m] + s, k) == if covers(m, k) {
            Some(value_at(m, k))
        } else {
            lookup(s, k)
        },
{
    let t = seq![m] + s;
    assert(t[0] == m);
    assert(t.drop_first() =~= s);
}

/// A run before runs in order that start at its end or later makes runs in
/// order.
pub proof fn lemma_ordered_cons(m: Mapping, s: Seq<Mapping>, x: int)
    requires
        well_formed(m),
        end_of(m) <= u64::MAX,
        x <= m.0,
        ordered(s),
        starts_from(s, end_of(m)),
    ensures
        ordered(seq![m] + s),
        starts_from(seq![m] + s, x),
{
    let t = seq![m] + s;
    assert forall|i: int| 0 <= i < t.len() implies well_formed(#[trigger] t[i]) && end_of(t[i])
        <= u64::MAX && x <= t[i].0 by {
        if i > 0 {
            assert(t[i] == s[i - 1]);
        }
    }
    assert forall|i: int, j: int| 0 <= i < j < t.len() implies end_of(#[trigger] t[i]) <= (
    #[trigger] t[j]).0 by {
        assert(t[j] == s[j - 1]);
        if i > 0 {
            assert(t[i] == s[i - 1]);
        }
    }
}

/// The merged runs are in order, as those of one device are, and none
/// starts before the key `x` where none of the base and of the overlay
/// does.
pub proof fn lemma_merged_ordered(b: Seq<Mapping>, o: Seq<Mapping>, x: int)
    requires
        ordered(b),
        ordered(o),
        starts_from(b, x),
        starts_from(o, x),
    ensures
        ordered(merged(b, o)),
        starts_from(merged(b, o), x),
    decreases b.len() + o.len(),
        (if b.len() > 0 && o.len() > 0 && b[0].0 < o[0].0 {
            1int
        } else {
            0int
        }),
{
    if b.len() == 0 || o.len() == 0 {
    } else {
        let b0 = b[0];
        let o0 = o[0];
        lemma_ordered_drop_first(b);
        lemma_ordered_drop_first(o);
        match decide(b0, o0) {
            Move::TakeOverlay => {
                lemma_merged_ordered(b, o.drop_first(), end_of(o0));
                lemma_ordered_cons(o0, merged(b, o.drop_first()), x);
            },
            Move::TakeBase => {
                lemma_merged_ordered(b.drop_first(), o, end_of(b0));
                lemma_ordered_cons(b0, merged(b.drop_first(), o), x);
            },
            Move::TakeBasePrefix(d) => {
                let cut = b.update(0, rest_of(b0, d));
                lemma_ordered_cut(b, d);
                lemma_merged_ordered(cut, o, o0.0 as int);
                lemma_ordered_cons((b0.0, b0.1, d), merged(cut, o), x);
            },
            Move::CutBase(d) => {
                let cut = b.update(0, rest_of(b0, d));
                lemma_ordered_cut(b, d);
                lemma_merged_ordered(cut, o.drop_first(), end_of(o0));
                lemma_ordered_cons(o0, merged(cut, o.drop_first()), x);
            },
            Move::DropBase => {
                lemma_merged_ordered(b.drop_first(), o, x);
            },
        }
    }
}

/// A key has in the merged runs the value that the overlay gives it, and
/// where the overlay gives none, the value that the base gives it.
pub proof fn lemma_merged_lookup(b: Seq<Mapping>, o: Seq<Mapping>, k: int)
    requires
        ordered(b),
        ordered(o),
    ensures
        lookup(merged(b, o), k) == laid_over(lookup(b, k), lookup(o, k)),
    decreases b.len() + o.len(),
        (if b.len() > 0 && o.len() > 0 && b[0].0 < o[0].0 {
            1int
        } else {
            0int
        }),
{
    if b.len() == 0 || o.len() == 0 {
    } else {
        let b0 = b[0];
        let o0 = o[0];
        lemma_ordered_drop_first(b);
        lemma_ordered_drop_first(o);
        match decide(b0, o0) {
            Move::TakeOverlay => {
                lemma_merged_lookup(b, o.drop_first(), k);
                lemma_lookup_cons(o0, merged(b, o.drop_first()), k);
                    },
            Move::TakeBase => {
                lemma_merged_lookup(b.drop_first(), o, k);
                lemma_lookup_cons(b0, merged(b.drop_first(), o), k);
                if covers(b0, k) {
                    lemma_lookup_before(o, o0.0 as int, k);
                }
                    },
            Move::TakeBasePrefix(d) => {
                let cut = b.update(0, rest_of(b0, d));
                lemma_ordered_cut(b, d);
                lemma_merged_lookup(cut, o, k);
                lemma_lookup_cons((b0.0, b0.1, d), merged(cut, o), k);
                if k < o0.0 {
                    lemma_lookup_before(o, o0.0 as int, k);
                }
                    },
            Move::CutBase(d) => {
                let cut = b.update(0, rest_of(b0, d));
                lemma_ordered_cut(b, d);
                lemma_merged_lookup(cut, o.drop_first(), k);
                lemma_lookup_cons(o0, merged(cut, o.drop_first()), k);
                    },
            Move::DropBase => {
                lemma_merged_lookup(b.drop_first(), o, k);
                    },
        }
    }
}

/// No key is lost or added: the merged runs map the keys that the base or
/// the overlay maps and no others, and, being in order, each of them once.
pub proof fn lemma_merged_keys(b: Seq<Mapping>, o: Seq<Mapping>)
    requires
        ordered(b),
        ordered(o),
    ensures
        keys(merged(b, o)) == keys(b).union(keys(o)),
        ordered(merged(b, o)),
{
    assert forall|k: int| keys(merged(b, o)).contains(k) <==> keys(b).union(keys(o)).contains(
        k,
    ) by {
        lemma_merged_lookup(b, o, k);
    }
    assert(keys(merged(b, o)) =~= keys(b).union(keys(o)));
    assert(starts_from(b, 0)) by {
        assert forall|i: int| 0 <= i < b.len() implies 0 <= (#[trigger] b[i]).0 by {}
    }
    assert(starts_from(o, 0)) by {
        assert forall|i: int| 0 <= i < o.len() implies 0 <= (#[trigger] o[i]).0 by {}
    }
    lemma_merged_ordered(b, o, 0);
}

/// The overlay wins: a key that both devices map has in the merged runs
/// the value that the overlay gives it.
pub proof fn lemma_overlay_wins(b: Seq<Mapping>, o: Seq<Mapping>, k: int)
    requires
        ordered(b),
        ordered(o),
        keys(b).contains(k),
        keys(o).contains(k),
    ensures
        lookup(merged(b, o), k) == lookup(o, k),
{
    lemma_merged_lookup(b, o, k);
}

/// A merge with a device that maps nothing emits the runs of the other
/// device as they are.
pub proof fn lemma_merged_with_nothing(s: Seq<Mapping>)
    ensures
        merged(s, Seq::empty()) == s,
        merged(Seq::empty(), s) == s,
{
}

proof fn lemma_merged_after_head(s: Seq<Mapping>)
    requires
        ordered(s),
        s.len() > 0,
        merged(s.drop_first(), s.drop_first()) == s.drop_first(),
    ensures
        merged(s.drop_first(), s) == s,
{
    let t = s.drop_first();
    lemma_ordered_drop_first(s);
    if t.len() > 0 {
        assert(end_of(s[0]) <= t[0].0);
        assert(merged(t, s) == seq![s[0]] + merged(t, t));
        assert(seq![s[0]] + t =~= s);
    }
}

/// A merge of a device with itself emits the runs of the device as they
/// are.
pub proof fn lemma_merged_with_itself(s: Seq<Mapping>)
    requires
        ordered(s),
    ensures
        merged(s, s) == s,
    decreases s.len(),
{
    if s.len() > 0 {
        lemma_ordered_drop_first(s);
        lemma_merged_with_itself(s.drop_first());
        lemma_merged_after_head(s);
        assert(decide(s[0], s[0]) == Move::DropBase);
    }
}

proof fn lemma_maximal_drop_first(s: Seq<Mapping>)
    requires
        maximal(s),
        s.len() > 0,
    ensures
        maximal(s.drop_first()),
        s.len() > 1 ==> !adjacent(s[0], s[1]),
{
    let t = s.drop_first();
    assert forall|i: int| 0 <= i && i + 1 < t.len() implies !adjacent(#[trigger] t[i], t[i + 1]) by {
        assert(t[i] == s[i + 1]);
        assert(t[i + 1] == s[i + 2]);
    }
}

proof fn lemma_maximal_cut(s: Seq<Mapping>, d: u64)
    requires
        maximal(s),
        ordered(s),
        s.len() > 0,
        0 < d < s[0].2,
    ensures
        maximal(s.update(0, rest_of(s[0], d))),
{
    let t = s.update(0, rest_of(s[0], d));
    assert forall|i: int| 0 <= i && i + 1 < t.len() implies !adjacent(#[trigger] t[i], t[i + 1]) by {
        assert(t[i + 1] == s[i + 1]);
        if i > 0 {
            assert(t[i] == s[i]);
        } else {
            assert(!adjacent(s[0], s[1]));
        }
    }
}

proof fn lemma_merged_cons_parted(
    y: Mapping,
    side: Side,
    rest: Seq<Mapping>,
    sides: Seq<Side>,
)
    requires
        rest.len() == sides.len(),
        rest.len() > 0 && sides[0] == side ==> !adjacent(y, rest[0]),
        forall|i: int|
            0 <= i && i + 1 < rest.len() && adjacent(#[trigger] rest[i], rest[i + 1]) ==> sides[i]
                != sides[i + 1],
    ensures
        forall|i: int|
            0 <= i && i + 1 < (seq![y] + rest).len() && adjacent(
                #[trigger] (seq![y] + rest)[i],
                (seq![y] + rest)[i + 1],
            ) ==> (seq![side] + sides)[i] != (seq![side] + sides)[i + 1],
{
    let all = seq![y] + rest;
    let tags = seq![side] + sides;
    assert forall|i: int| 0 <= i && i + 1 < all.len() && adjacent(#[trigger] all[i], all[i + 1])
        implies tags[i] != tags[i + 1] by {
        if i > 0 {
            assert(all[i] == rest[i - 1]);
            assert(all[i + 1] == rest[i]);
            assert(tags[i] == sides[i - 1]);
            assert(tags[i + 1] == sides[i]);
        } else {
            assert(all[1] == rest[0]);
            assert(tags[1] == sides[0]);
        }
    }
}

proof fn lemma_merged_parted(x: Mapping, side: Side, b: Seq<Mapping>, o: Seq<Mapping>)
    requires
        ordered(b),
        ordered(o),
        maximal(b),
        maximal(o),
        parted(x, side, b, o),
    ensures
        merged(b, o).len() == merged_sides(b, o).len(),
        merged(b, o).len() > 0 && merged_sides(b, o)[0] == side ==> !adjacent(x, merged(b, o)[0]),
        forall|i: int|
            0 <= i && i + 1 < merged(b, o).len() && adjacent(
                #[trigger] merged(b, o)[i],
                merged(b, o)[i + 1],
            ) ==> merged_sides(b, o)[i] != merged_sides(b, o)[i + 1],
    decreases b.len() + o.len(),
        (if b.len() > 0 && o.len() > 0 && b[0].0 < o[0].0 {
            1int
        } else {
            0int
        }),
{
    if b.len() == 0 || o.len() == 0 {
    } else {
        let b0 = b[0];
        let o0 = o[0];
        lemma_ordered_drop_first(b);
        lemma_ordered_drop_first(o);
        lemma_maximal_drop_first(b);
        lemma_maximal_drop_first(o);
        match decide(b0, o0) {
            Move::TakeOverlay => {
                let o2 = o.drop_first();
                if o2.len() > 0 {
                    assert(o2[0] == o[1]);
                }
                lemma_merged_parted(o0, Side::Overlay, b, o2);
                lemma_merged_cons_parted(o0, Side::Overlay, merged(b, o2), merged_sides(b, o2));
            },
            Move::TakeBase => {
                let b2 = b.drop_first();
                if b2.len() > 0 {
                    assert(b2[0] == b[1]);
                    assert(end_of(b[0]) <= b[1].0);
                }
                lemma_merged_parted(b0, Side::Base, b2, o);
                lemma_merged_cons_parted(b0, Side::Base, merged(b2, o), merged_sides(b2, o));
            },
            Move::TakeBasePrefix(d) => {
                let cut = b.update(0, rest_of(b0, d));
                let y = (b0.0, b0.1, d);
                lemma_ordered_cut(b, d);
                lemma_maximal_cut(b, d);
                lemma_merged_parted(y, Side::Base, cut, o);
                lemma_merged_cons_parted(y, Side::Base, merged(cut, o), merged_sides(cut, o));
            },
            Move::CutBase(d) => {
                let cut = b.update(0, rest_of(b0, d));
                let o2 = o.drop_first();
                lemma_ordered_cut(b, d);
                lemma_maximal_cut(b, d);
                if o2.len() > 0 {
                    assert(o2[0] == o[1]);
                }
                lemma_merged_parted(o0, Side::Overlay, cut, o2);
                lemma_merged_cons_parted(o0, Side::Overlay, merged(cut, o2), merged_sides(cut, o2));
            },
            Move::DropBase => {
                let b2 = b.drop_first();
                if b2.len() > 0 {
                    assert(b2[0] == b[1]);
                    assert(end_of(b[0]) <= b[1].0);
                }
                lemma_merged_parted(x, side, b2, o);
            },
        }
    }
}

/// How long the merged runs are: where the runs of each device are as
/// long as the rule allows, two merged runs in a row are adjacent only if
/// they are taken from different devices, which then map keys in a row to
/// blocks in a row.
pub proof fn lemma_merged_maximal(b: Seq<Mapping>, o: Seq<Mapping>, i: int)
    requires
        ordered(b),
        ordered(o),
        maximal(b),
        maximal(o),
        0 <= i,
        i + 1 < merged(b, o).len(),
        adjacent(merged(b, o)[i], merged(b, o)[i + 1]),
    ensures
        merged_sides(b, o).len() == merged(b, o).len(),
        merged_sides(b, o)[i] != merged_sides(b, o)[i + 1],
{
    let time: u32 = if o.len() > 0 && o[0].1.time == 0 {
        1
    } else {
        0
    };
    let x: Mapping = (0, BlockTime { block: 0, time }, 0);
    lemma_merged_parted(x, Side::Overlay, b, o);
}

/// The merge of two devices, in their entries: where the keys of each
/// device rise, a key has in the merged runs the value that the entries of
/// the overlay give it, and where they give none, the value that the entries
/// of the base give it; and the merged runs are in order, so that no key
/// is mapped twice.
pub proof fn lemma_merged_devices(base: Seq<Entry>, overlay: Seq<Entry>, k: int)
    requires
        rising(base),
        rising(overlay),
    ensures
        lookup(merged(runs(base), runs(overlay)), k) == laid_over(
            value_of(base, k),
            value_of(overlay, k),
        ),
        ordered(merged(runs(base), runs(overlay))),
{
    lemma_runs_ordered(base);
    lemma_runs_ordered(overlay);
    lemma_runs_lookup(base, k);
    lemma_runs_lookup(overlay, k);
    lemma_merged_lookup(runs(base), runs(overlay), k);
    lemma_merged_keys(runs(base), runs(overlay));
}

} // verus!
