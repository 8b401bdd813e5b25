//! Group builder: packs ranked events into capacity-bounded groups.
//!
//! A greedy left-to-right pass over the ranked resolvable events places each
//! event into the earliest open group whose class-specific remaining
//! programmable capacity admits it, opening a new group when none does.
//! Fixed-slot events never consume programmable capacity. The group count is
//! the minimum achievable by such a single pass, not a global optimum — an
//! accepted approximation. Building fails only when a programmable event's
//! class capacity is configured as zero, since no group could ever admit it.

use vstd::prelude::*;
use crate::errors::ConfigError;
use crate::events::{
    CounterClass, EventCatalog, EventEncoding, resolved_events, SlotKind, unknown_names,
};

verus! {

/// Per-class programmable counter capacity of the machine.
#[derive(Clone, Copy, Debug, PartialEq, Eq, Structural)]
pub struct CounterCaps {
    pub core: usize,
    pub uncore: usize,
}

/// An ordered set of events simultaneously measurable on one hardware
/// counter set. Immutable once built; identified by its index in the built
/// sequence.
pub struct EventGroup {
    pub events: Vec<EventEncoding>,
}

/// The programmable capacity configured for a class.
pub open spec fn cap_of(caps: CounterCaps, c: CounterClass) -> nat {
    match c {
        CounterClass::Core => caps.core as nat,
        CounterClass::Uncore => caps.uncore as nat,
    }
}

/// How many programmable-slot events of class `c` a group holds.
pub open spec fn prog_count(g: Seq<EventEncoding>, c: CounterClass) -> nat
    decreases g.len(),
{
    if g.len() == 0 {
        0
    } else {
        prog_count(g.drop_last(), c) + if g.last().slot is Programmable && g.last().class == c {
            1nat
        } else {
            0nat
        }
    }
}

/// Whether a group's remaining capacity admits one more event.
pub open spec fn admits(g: Seq<EventEncoding>, e: EventEncoding, caps: CounterCaps) -> bool {
    e.slot is Fixed || prog_count(g, e.class) < cap_of(caps, e.class)
}

/// The capacity invariant of one group: programmable members of each class
/// never exceed that class's capacity.
pub open spec fn group_wf(g: Seq<EventEncoding>, caps: CounterCaps) -> bool {
    &&& prog_count(g, CounterClass::Core) <= caps.core
    &&& prog_count(g, CounterClass::Uncore) <= caps.uncore
}

/// Whether some group can ever hold this event: fixed-slot events always
/// fit; a programmable event needs nonzero class capacity.
pub open spec fn placeable(e: EventEncoding, caps: CounterCaps) -> bool {
    e.slot is Fixed || cap_of(caps, e.class) > 0
}

/// Places one event into the earliest group that admits it, opening a new
/// group at the end when none does.
pub open spec fn place_event(
    gs: Seq<Seq<EventEncoding>>,
    e: EventEncoding,
    caps: CounterCaps,
) -> Seq<Seq<EventEncoding>>
    decreases gs.len(),
{
    if gs.len() == 0 {
        seq![seq![e]]
    } else if admits(gs[0], e, caps) {
        seq![gs[0].push(e)] + gs.skip(1)
    } else {
        seq![gs[0]] + place_event(gs.skip(1), e, caps)
    }
}

/// The groups that the greedy pass builds from a ranked event sequence.
pub open spec fn built_groups(evs: Seq<EventEncoding>, caps: CounterCaps) -> Seq<Seq<EventEncoding>>
    decreases evs.len(),
{
    if evs.len() == 0 {
        Seq::empty()
    } else {
        place_event(built_groups(evs.drop_last(), caps), evs.last(), caps)
    }
}

/// The views of a sequence of built groups.
pub open spec fn groups_view(gs: Seq<EventGroup>) -> Seq<Seq<EventEncoding>> {
    gs.map_values(|g: EventGroup| g.events@)
}

/// Counts the programmable events of class `c` in a group.
fn count_prog(g: &EventGroup, c: CounterClass) -> (r: usize)
    ensures
        r == prog_count(g.events@, c),
{
    let n = g.events.len();
    let mut r: usize = 0;
    let mut i: usize = 0;
    while i < n
        invariant
            n == g.events@.len(),
            i <= n,
            r == prog_count(g.events@.take(i as int), c),
            r <= i,
        decreases n - i,
    {
        proof {
            assert(g.events@.take(i + 1).drop_last() =~= g.events@.take(i as int));
            assert(g.events@.take(i + 1).last() == g.events@[i as int]);
        }
        let e = &g.events[i];
        if matches!(e.slot, SlotKind::Programmable) && e.class == c {
            r = r + 1;
        }
        i = i + 1;
    }
    proof {
        assert(g.events@.take(n as int) =~= g.events@);
    }
    r
}

/// Whether this group's remaining capacity admits `e`.
fn group_admits(g: &EventGroup, e: &EventEncoding, caps: CounterCaps) -> (r: bool)
    ensures
        r == admits(g.events@, *e, caps),
{
    match e.slot {
        SlotKind::Fixed => true,
        SlotKind::Programmable => {
            let used = count_prog(g, e.class);
            let cap = match e.class {
                CounterClass::Core => caps.core,
                CounterClass::Uncore => caps.uncore,
            };
            used < cap
        }
    }
}

/// The index of the earliest group that admits `e`, or the group count when
/// none does.
fn find_admitting(groups: &Vec<EventGroup>, e: &EventEncoding, caps: CounterCaps) -> (j: usize)
    ensures
        j <= groups@.len(),
        forall|k: int| 0 <= k < j ==> !admits(#[trigger] groups_view(groups@)[k], *e, caps),
        j < groups@.len() ==> admits(groups_view(groups@)[j as int], *e, caps),
{
    let m = groups.len();
    let mut j: usize = 0;
    while j < m
        invariant
            m == groups@.len(),
            j <= m,
            forall|k: int| 0 <= k < j ==> !admits(#[trigger] groups_view(groups@)[k], *e, caps),
        decreases m - j,
    {
        proof {
            assert(groups_view(groups@)[j as int] == groups@[j as int].events@);
        }
        if group_admits(&groups[j], e, caps) {
            return j;
        }
        j = j + 1;
    }
    j
}

/// Placement into the first admitting group rewrites exactly that group.
proof fn lemma_place_at(gs: Seq<Seq<EventEncoding>>, e: EventEncoding, caps: CounterCaps, j: int)
    requires
        0 <= j < gs.len(),
        forall|k: int| 0 <= k < j ==> !admits(#[trigger] gs[k], e, caps),
        admits(gs[j], e, caps),
    ensures
        place_event(gs, e, caps) == gs.update(j, gs[j].push(e)),
    decreases j,
{
    if j == 0 {
        assert(place_event(gs, e, caps) =~= gs.update(0, gs[0].push(e)));
    } else {
        lemma_place_at(gs.skip(1), e, caps, j - 1);
        assert(place_event(gs, e, caps) =~= gs.update(j, gs[j].push(e)));
    }
}

/// When no open group admits the event, placement opens a new group at the
/// end holding just that event.
proof fn lemma_place_new(gs: Seq<Seq<EventEncoding>>, e: EventEncoding, caps: CounterCaps)
    requires
        forall|k: int| 0 <= k < gs.len() ==> !admits(#[trigger] gs[k], e, caps),
    ensures
        place_event(gs, e, caps) == gs.push(seq![e]),
    decreases gs.len(),
{
    if gs.len() == 0 {
        assert(place_event(gs, e, caps) =~= gs.push(seq![e]));
    } else {
        lemma_place_new(gs.skip(1), e, caps);
        assert(place_event(gs, e, caps) =~= gs.push(seq![e]));
    }
}

/// Pushing an event changes only its own class's programmable count, and by
/// one only when it occupies a programmable slot.
proof fn lemma_prog_count_push(g: Seq<EventEncoding>, e: EventEncoding, c: CounterClass)
    ensures
        prog_count(g.push(e), c) == prog_count(g, c) + if e.slot is Programmable && e.class == c {
            1nat
        } else {
            0nat
        },
{
    assert(g.push(e).drop_last() =~= g);
    assert(g.push(e).last() == e);
}

/// Placing a placeable event keeps every group within capacity.
proof fn lemma_place_preserves_wf(gs: Seq<Seq<EventEncoding>>, e: EventEncoding, caps: CounterCaps)
    requires
        forall|j: int| 0 <= j < gs.len() ==> group_wf(#[trigger] gs[j], caps),
        placeable(e, caps),
    ensures
        forall|j: int|
            0 <= j < place_event(gs, e, caps).len() ==> group_wf(
                #[trigger] place_event(gs, e, caps)[j],
                caps,
            ),
    decreases gs.len(),
{
    let out = place_event(gs, e, caps);
    if gs.len() == 0 {
        assert(seq![e].drop_last() =~= Seq::<EventEncoding>::empty());
        assert(prog_count(Seq::<EventEncoding>::empty(), CounterClass::Core) == 0);
        assert(prog_count(Seq::<EventEncoding>::empty(), CounterClass::Uncore) == 0);
        assert(prog_count(seq![e], CounterClass::Core) <= 1);
        assert(prog_count(seq![e], CounterClass::Uncore) <= 1);
        assert(group_wf(out[0], caps));
    } else if admits(gs[0], e, caps) {
        lemma_prog_count_push(gs[0], e, CounterClass::Core);
        lemma_prog_count_push(gs[0], e, CounterClass::Uncore);
        assert(group_wf(out[0], caps));
        assert forall|j: int| 1 <= j < out.len() implies group_wf(out[j], caps) by {
            assert(out[j] == gs[j]);
        }
    } else {
        lemma_place_preserves_wf(gs.skip(1), e, caps);
        let rest = place_event(gs.skip(1), e, caps);
        assert forall|j: int| 0 <= j < out.len() implies group_wf(out[j], caps) by {
            if j >= 1 {
                assert(out[j] == rest[j - 1]);
            }
        }
    }
}

/// Capacity law: over any ranked event sequence whose events are placeable,
/// no built group ever holds more `Core`-class programmable events than the
/// core capacity, nor more `Uncore`-class programmable events than the
/// uncore capacity.
pub proof fn lemma_built_groups_respect_caps(evs: Seq<EventEncoding>, caps: CounterCaps)
    requires
        forall|k: int| 0 <= k < evs.len() ==> placeable(#[trigger] evs[k], caps),
    ensures
        forall|j: int|
            0 <= j < built_groups(evs, caps).len() ==> group_wf(
                #[trigger] built_groups(evs, caps)[j],
                caps,
            ),
    decreases evs.len(),
{
    if evs.len() > 0 {
        lemma_built_groups_respect_caps(evs.drop_last(), caps);
        lemma_place_preserves_wf(built_groups(evs.drop_last(), caps), evs.last(), caps);
    }
}

/// Whether `a` is a subsequence of `b`: `a`'s members occur in `b` in the
/// same order.
pub open spec fn is_subseq_of<T>(a: Seq<T>, b: Seq<T>) -> bool
    decreases a.len() + b.len(),
{
    if a.len() == 0 {
        true
    } else if b.len() == 0 {
        false
    } else {
        (a.last() == b.last() && is_subseq_of(a.drop_last(), b.drop_last())) || is_subseq_of(
            a,
            b.drop_last(),
        )
    }
}

proof fn lemma_subseq_push_both<T>(a: Seq<T>, b: Seq<T>, x: T)
    requires
        is_subseq_of(a, b),
    ensures
        is_subseq_of(a.push(x), b.push(x)),
{
    assert(a.push(x).drop_last() =~= a);
    assert(b.push(x).drop_last() =~= b);
}

proof fn lemma_subseq_grow<T>(a: Seq<T>, b: Seq<T>, x: T)
    requires
        is_subseq_of(a, b),
    ensures
        is_subseq_of(a, b.push(x)),
{
    assert(b.push(x).drop_last() =~= b);
    if a.len() > 0 {
        assert(is_subseq_of(a, b.push(x)));
    }
}

/// Placing one more event keeps every group a rank-ordered subsequence of
/// the ranked input so far.
proof fn lemma_place_keeps_subseq(
    gs: Seq<Seq<EventEncoding>>,
    e: EventEncoding,
    caps: CounterCaps,
    evs: Seq<EventEncoding>,
)
    requires
        forall|j: int| 0 <= j < gs.len() ==> is_subseq_of(#[trigger] gs[j], evs),
    ensures
        forall|j: int|
            0 <= j < place_event(gs, e, caps).len() ==> is_subseq_of(
                #[trigger] place_event(gs, e, caps)[j],
                evs.push(e),
            ),
    decreases gs.len(),
{
    let out = place_event(gs, e, caps);
    if gs.len() == 0 {
        assert(seq![e].drop_last() =~= Seq::<EventEncoding>::empty());
        assert(evs.push(e).drop_last() =~= evs);
        assert(is_subseq_of(Seq::<EventEncoding>::empty(), evs));
        assert(is_subseq_of(seq![e], evs.push(e)));
    } else if admits(gs[0], e, caps) {
        lemma_subseq_push_both(gs[0], evs, e);
        assert forall|j: int| 0 <= j < out.len() implies is_subseq_of(out[j], evs.push(e)) by {
            if j >= 1 {
                assert(out[j] == gs[j]);
                lemma_subseq_grow(gs[j], evs, e);
            }
        }
    } else {
        lemma_place_keeps_subseq(gs.skip(1), e, caps, evs);
        let rest = place_event(gs.skip(1), e, caps);
        assert forall|j: int| 0 <= j < out.len() implies is_subseq_of(out[j], evs.push(e)) by {
            if j == 0 {
                lemma_subseq_grow(gs[0], evs, e);
            } else {
                assert(out[j] == rest[j - 1]);
            }
        }
    }
}

/// Rank-order law, within each group: every built group is a subsequence of
/// the ranked input — the builder never reorders events inside a group.
pub proof fn lemma_built_groups_keep_rank_order(evs: Seq<EventEncoding>, caps: CounterCaps)
    ensures
        forall|j: int|
            0 <= j < built_groups(evs, caps).len() ==> is_subseq_of(
                #[trigger] built_groups(evs, caps)[j],
                evs,
            ),
    decreases evs.len(),
{
    if evs.len() > 0 {
        lemma_built_groups_keep_rank_order(evs.drop_last(), caps);
        lemma_place_keeps_subseq(built_groups(evs.drop_last(), caps), evs.last(), caps, evs.drop_last());
        assert(evs.drop_last().push(evs.last()) =~= evs);
    }
}

/// Shape of the build over events that are all programmable and of one
/// class: every group but the last is exactly full, and concatenating the
/// groups in order reproduces the input.
proof fn lemma_uniform_build_shape(evs: Seq<EventEncoding>, caps: CounterCaps, c: CounterClass)
    requires
        0 < cap_of(caps, c),
        forall|i: int|
            0 <= i < evs.len() ==> (#[trigger] evs[i].slot is Programmable && evs[i].class == c),
    ensures
        built_groups(evs, caps).flatten_alt() == evs,
        forall|j: int|
            0 <= j < built_groups(evs, caps).len() - 1 ==> prog_count(
                #[trigger] built_groups(evs, caps)[j],
                c,
            ) == cap_of(caps, c),
        built_groups(evs, caps).len() > 0 ==> prog_count(
            built_groups(evs, caps).last(),
            c,
        ) <= cap_of(caps, c),
    decreases evs.len(),
{
    let gs = built_groups(evs, caps);
    if evs.len() == 0 {
        assert(gs.flatten_alt() =~= evs);
    } else {
        let e = evs.last();
        let pre = evs.drop_last();
        let gs0 = built_groups(pre, caps);
        lemma_uniform_build_shape(pre, caps, c);
        if gs0.len() == 0 {
            assert(pre.len() == 0);
            assert(gs =~= seq![seq![e]]);
            assert(gs.drop_last() =~= Seq::<Seq<EventEncoding>>::empty());
            assert(gs.flatten_alt() =~= seq![e]);
            assert(seq![e].drop_last() =~= Seq::<EventEncoding>::empty());
            assert(prog_count(Seq::<EventEncoding>::empty(), c) == 0);
            assert(gs.flatten_alt() =~= evs);
        } else if prog_count(gs0.last(), c) < cap_of(caps, c) {
            let j = gs0.len() - 1;
            assert(admits(gs0[j], e, caps));
            lemma_place_at(gs0, e, caps, j);
            lemma_prog_count_push(gs0[j], e, c);
            assert(gs.drop_last() =~= gs0.drop_last());
            assert(gs.last() == gs0.last().push(e));
            assert(gs.flatten_alt() == gs0.drop_last().flatten_alt() + gs0.last().push(e));
            assert(gs0.flatten_alt() == gs0.drop_last().flatten_alt() + gs0.last());
            assert(gs0.drop_last().flatten_alt() + gs0.last().push(e) =~= (gs0.drop_last().flatten_alt()
                + gs0.last()).push(e));
            assert(pre.push(e) =~= evs);
            assert(gs.flatten_alt() =~= evs);
        } else {
            assert(forall|k: int| 0 <= k < gs0.len() ==> !admits(#[trigger] gs0[k], e, caps));
            lemma_place_new(gs0, e, caps);
            assert(gs.drop_last() =~= gs0);
            assert(gs.last() == seq![e]);
            assert(gs.flatten_alt() == gs0.flatten_alt() + seq![e]);
            assert(gs0.flatten_alt() + seq![e] =~= gs0.flatten_alt().push(e));
            assert(pre.push(e) =~= evs);
            assert(gs.flatten_alt() =~= evs);
            assert(seq![e].drop_last() =~= Seq::<EventEncoding>::empty());
            assert(prog_count(Seq::<EventEncoding>::empty(), c) == 0);
        }
    }
}

/// Rank-order law, across groups: when every ranked event occupies a
/// programmable slot of one class with nonzero capacity, concatenating the
/// built groups in order reproduces the ranked input exactly — no event is
/// ever measured ahead of a higher-ranked one. (With mixed classes or
/// fixed-slot events, a later event may back-fill an earlier group's spare
/// capacity of another kind, so the unrestricted guarantee is order within
/// each group, stated separately.)
pub proof fn lemma_single_class_keeps_full_order(
    evs: Seq<EventEncoding>,
    caps: CounterCaps,
    c: CounterClass,
)
    requires
        0 < cap_of(caps, c),
        forall|i: int|
            0 <= i < evs.len() ==> (#[trigger] evs[i].slot is Programmable && evs[i].class == c),
    ensures
        built_groups(evs, caps).flatten() == evs,
{
    lemma_uniform_build_shape(evs, caps, c);
    built_groups(evs, caps).lemma_flatten_and_flatten_alt_are_equivalent();
    assert(built_groups(evs, caps).flatten() =~= evs);
}

/// Builds capacity-respecting groups from the ranked resolvable events.
/// Fails, before any group is formed, exactly when some event could never be
/// placed because its class capacity is zero.
pub fn build_groups(events: &Vec<EventEncoding>, caps: CounterCaps) -> (r: Result<
    Vec<EventGroup>,
    ConfigError,
>)
    ensures
        r is Err <==> exists|k: int|
            0 <= k < events@.len() && !placeable(#[trigger] events@[k], caps),
        r is Err ==> r->Err_0 == ConfigError::ZeroCapacity,
        r is Ok ==> groups_view(r->Ok_0@) == built_groups(events@, caps),
{
    let n = events.len();
    let mut i: usize = 0;
    while i < n
        invariant
            n == events@.len(),
            i <= n,
            forall|k: int| 0 <= k < i ==> placeable(#[trigger] events@[k], caps),
        decreases n - i,
    {
        let e = &events[i];
        let ok = match e.slot {
            SlotKind::Fixed => true,
            SlotKind::Programmable => match e.class {
                CounterClass::Core => caps.core > 0,
                CounterClass::Uncore => caps.uncore > 0,
            },
        };
        if !ok {
            return Err(ConfigError::ZeroCapacity);
        }
        i = i + 1;
    }

    let mut groups: Vec<EventGroup> = Vec::new();
    let mut i: usize = 0;
    while i < n
        invariant
            n == events@.len(),
            i <= n,
            groups_view(groups@) == built_groups(events@.take(i as int), caps),
        decreases n - i,
    {
        proof {
            assert(events@.take(i + 1).drop_last() =~= events@.take(i as int));
            assert(events@.take(i + 1).last() == events@[i as int]);
        }
        let e = events[i].duplicate();
        let ghost gsv = groups_view(groups@);
        let m = groups.len();
        let j = find_admitting(&groups, &e, caps);
        if j < m {
            proof {
                assert(gsv[j as int] == groups@[j as int].events@);
                lemma_place_at(gsv, e, caps, j as int);
            }
            let mut g = groups.remove(j);
            g.events.push(e);
            groups.insert(j, g);
            proof {
                assert(groups_view(groups@) =~= gsv.update(j as int, gsv[j as int].push(
                    events@[i as int],
                )));
            }
        } else {
            proof {
                lemma_place_new(gsv, e, caps);
            }
            let mut g = EventGroup { events: Vec::new() };
            g.events.push(e);
            groups.push(g);
            proof {
                assert(groups_view(groups@) =~= gsv.push(seq![events@[i as int]]));
            }
        }
        i = i + 1;
    }
    proof {
        assert(events@.take(n as int) =~= events@);
    }
    Ok(groups)
}

/// Builds the group sequence straight from a ranked event-name list: each
/// name is resolved against the catalog, the unresolvable names are
/// collected and reported alongside (not fatal), and the resolvable events
/// are packed in rank order.
pub fn build_from_ranking(
    catalog: &EventCatalog,
    names: &Vec<String>,
    caps: CounterCaps,
) -> (r: Result<(Vec<EventGroup>, Vec<String>), ConfigError>)
    ensures
        ({
            let resolved = resolved_events(catalog.entries@, names@);
            &&& r is Err <==> exists|k: int|
                0 <= k < resolved.len() && !placeable(#[trigger] resolved[k], caps)
            &&& r is Err ==> r->Err_0 == ConfigError::ZeroCapacity
            &&& r matches Ok(out) ==> groups_view(out.0@) == built_groups(resolved, caps)
                && out.1@.map_values(|s: String| s@) == unknown_names(catalog.entries@, names@)
        }),
{
    let (resolved, unknown) = catalog.resolve_ranking(names);
    match build_groups(&resolved, caps) {
        Ok(gs) => Ok((gs, unknown)),
        Err(e) => Err(e),
    }
}

} // verus!
