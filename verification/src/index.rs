//! The correlation index: for every correlation key, the events that carry
//! it.
//!
//! Three rules give an event its keys.  Its user SID, where it has one that
//! is not empty; its path, likewise; and, where its timestamp parses, its
//! own second and the `delta` seconds after it.  The keys of one rule are
//! never keys of another.  Two events are linked when they carry a key in
//! common: for the time rule, when their seconds are at most `delta` apart,
//! since the second of the later event is then a key of both.

use std::collections::HashMap;
use vstd::prelude::*;
use crate::event::{field_of, views, ChainsawEvent, EventView, Field};
use crate::timestamp::{instant_of_field, instants_of, Timestamp};

verus! {

/// A correlation key.
pub enum CorrelationKey {
    /// A user SID.
    Identity(Seq<char>),
    /// A path.
    Location(Seq<char>),
    /// A second, counted from the epoch.
    Second(int),
}

/// How many seconds past its own an event is filed under: `delta`, and none
/// where `delta` is negative.
pub open spec fn reach(delta: int) -> int {
    if delta < 0 {
        0
    } else {
        delta
    }
}

/// Whether an event carries a key.
pub open spec fn carries(ev: EventView, delta: int, key: CorrelationKey) -> bool {
    match key {
        CorrelationKey::Identity(sid) => sid.len() > 0 && ev.user_sid == Some(sid),
        CorrelationKey::Location(path) => path.len() > 0 && ev.path == Some(path),
        CorrelationKey::Second(second) => match instant_of_field(ev.timestamp) {
            Some(at) => at.seconds <= second <= at.seconds + reach(delta),
            None => false,
        },
    }
}

/// Two events are linked when they carry a key in common.
pub open spec fn linked(a: EventView, b: EventView, delta: int) -> bool {
    exists|key: CorrelationKey| carries(a, delta, key) && #[trigger] carries(b, delta, key)
}

/// The text under which a field files an event: its value, where it is
/// present and not empty.
pub open spec fn filing_text(ev: EventView, field: Field) -> Option<Seq<char>> {
    match field_of(ev, field) {
        Some(s) => if s.len() > 0 {
            Some(s)
        } else {
            None
        },
        None => None,
    }
}

/// Two events are filed under one text by a field.
pub open spec fn share_text(a: EventView, b: EventView, field: Field) -> bool {
    filing_text(a, field) is Some && filing_text(a, field) == filing_text(b, field)
}

/// Two events have instants whose seconds are at most `delta` apart; with a
/// negative `delta`, instants in the same second.
pub open spec fn within_window(a: EventView, b: EventView, delta: int) -> bool {
    match (instant_of_field(a.timestamp), instant_of_field(b.timestamp)) {
        (Some(x), Some(y)) => -reach(delta) <= x.seconds - y.seconds <= reach(delta),
        _ => false,
    }
}

/// Two events are linked exactly if they share a user SID that is not
/// empty, or share a path that is not empty, or have instants whose seconds
/// are at most `delta` apart.
pub proof fn lemma_linked_cases(a: EventView, b: EventView, delta: int)
    ensures
        linked(a, b, delta) <==> share_text(a, b, Field::UserSid) || share_text(a, b, Field::Path)
            || within_window(a, b, delta),
{
    if linked(a, b, delta) {
        let key = choose|key: CorrelationKey| carries(a, delta, key) && #[trigger] carries(
            b,
            delta,
            key,
        );
        match key {
            CorrelationKey::Identity(sid) => {
                assert(share_text(a, b, Field::UserSid));
            },
            CorrelationKey::Location(path) => {
                assert(share_text(a, b, Field::Path));
            },
            CorrelationKey::Second(second) => {
                assert(within_window(a, b, delta));
            },
        }
    }
    if share_text(a, b, Field::UserSid) {
        assert(carries(b, delta, CorrelationKey::Identity(a.user_sid->0)));
    }
    if share_text(a, b, Field::Path) {
        assert(carries(b, delta, CorrelationKey::Location(a.path->0)));
    }
    if within_window(a, b, delta) {
        let x = instant_of_field(a.timestamp)->0;
        let y = instant_of_field(b.timestamp)->0;
        let later: int = if x.seconds >= y.seconds {
            x.seconds as int
        } else {
            y.seconds as int
        };
        assert(carries(b, delta, CorrelationKey::Second(later)));
    }
}

/// Being linked does not depend on the order of the two events.
pub proof fn lemma_linked_symmetric(a: EventView, b: EventView, delta: int)
    ensures
        linked(a, b, delta) == linked(b, a, delta),
{
    lemma_linked_cases(a, b, delta);
    lemma_linked_cases(b, a, delta);
}

/// The member lists of a list of groups.
pub open spec fn lists(groups: Seq<Vec<usize>>) -> Seq<Seq<usize>> {
    Seq::new(groups.len(), |g: int| groups[g]@)
}

/// Some group holds both `a` and `b`.
pub open spec fn together(groups: Seq<Seq<usize>>, a: usize, b: usize) -> bool {
    exists|g: int| 0 <= g < groups.len() && #[trigger] groups[g].contains(a) && groups[g].contains(b)
}

/// The groups are those of a relation on the first `n` positions: every
/// member is a position, the members of one group are related to each
/// other, and two positions that are related stand together in some group.
pub open spec fn groups_match(
    groups: Seq<Seq<usize>>,
    n: nat,
    related: spec_fn(usize, usize) -> bool,
) -> bool {
    &&& forall|g: int, k: int|
        0 <= g < groups.len() && 0 <= k < groups[g].len() ==> #[trigger] groups[g][k] < n
    &&& forall|g: int, j: int, k: int|
        0 <= g < groups.len() && 0 <= j < groups[g].len() && 0 <= k < groups[g].len() ==> related(
            #[trigger] groups[g][j],
            #[trigger] groups[g][k],
        )
    &&& forall|a: usize, b: usize|
        a < n && b < n && #[trigger] related(a, b) ==> together(groups, a, b)
}

/// The relation of sharing a text of one field.
pub open spec fn text_relation(events: Seq<EventView>, field: Field) -> spec_fn(usize, usize) -> bool {
    |a: usize, b: usize| share_text(events[a as int], events[b as int], field)
}

/// The relation of having instants within the window.
pub open spec fn window_relation(events: Seq<EventView>, delta: int) -> spec_fn(usize, usize) -> bool {
    |a: usize, b: usize| within_window(events[a as int], events[b as int], delta)
}

proof fn lemma_push_contains(s: Seq<usize>, x: usize, y: usize)
    ensures
        s.push(x).contains(y) <==> s.contains(y) || x == y,
{
    let longer = s.push(x);
    if s.contains(y) {
        let k = choose|k: int| 0 <= k < s.len() && s[k] == y;
        assert(longer[k] == y);
    }
    if x == y {
        assert(longer[s.len() as int] == y);
    }
    if longer.contains(y) {
        let k = choose|k: int| 0 <= k < longer.len() && longer[k] == y;
        if k < s.len() {
            assert(s[k] == y);
        }
    }
}

/// What holds of the groups of one text field while the events before
/// `upto` have been filed: `home` names the group of each.
spec fn text_filed(
    groups: Seq<Vec<usize>>,
    events: Seq<EventView>,
    field: Field,
    upto: int,
    home: Seq<int>,
) -> bool {
    &&& home.len() == upto
    &&& forall|g: int| 0 <= g < groups.len() ==> (#[trigger] groups[g])@.len() > 0
    &&& forall|g: int, k: int|
        0 <= g < groups.len() && 0 <= k < groups[g]@.len() ==> {
            &&& (#[trigger] groups[g]@[k]) < upto
            &&& filing_text(events[groups[g]@[k] as int], field) is Some
            &&& filing_text(events[groups[g]@[k] as int], field) == filing_text(
                events[groups[g]@[0] as int],
                field,
            )
        }
    &&& forall|g: int, h: int|
        0 <= g < h < groups.len() ==> filing_text(events[(#[trigger] groups[g])@[0] as int], field)
            != filing_text(events[(#[trigger] groups[h])@[0] as int], field)
    &&& forall|e: int|
        0 <= e < upto && filing_text(events[e], field) is Some ==> {
            &&& 0 <= #[trigger] home[e] < groups.len()
            &&& groups[home[e]]@.contains(e as usize)
        }
}

proof fn lemma_text_filed_matches(
    groups: Seq<Vec<usize>>,
    events: Seq<EventView>,
    field: Field,
    home: Seq<int>,
)
    requires
        text_filed(groups, events, field, events.len() as int, home),
    ensures
        groups_match(lists(groups), events.len(), text_relation(events, field)),
{
    let ls = lists(groups);
    let related = text_relation(events, field);
    assert forall|g: int, k: int| 0 <= g < ls.len() && 0 <= k < ls[g].len() implies #[trigger] ls[g][k]
        < events.len() by {
        assert(groups[g]@[k] < events.len());
    }
    assert forall|g: int, j: int, k: int|
        0 <= g < ls.len() && 0 <= j < ls[g].len() && 0 <= k < ls[g].len() implies related(
        #[trigger] ls[g][j],
        #[trigger] ls[g][k],
    ) by {
        assert(groups[g]@[j] < events.len());
        assert(groups[g]@[k] < events.len());
    }
    assert forall|a: usize, b: usize| a < events.len() && b < events.len() && #[trigger] related(
        a,
        b,
    ) implies together(ls, a, b) by {
        let g = home[a as int];
        let h = home[b as int];
        assert(groups[g]@.contains(a));
        assert(groups[h]@.contains(b));
        let j = choose|j: int| 0 <= j < groups[g]@.len() && groups[g]@[j] == a;
        let k = choose|k: int| 0 <= k < groups[h]@.len() && groups[h]@[k] == b;
        assert(groups[g]@[j] < events.len());
        assert(groups[h]@[k] < events.len());
        if g < h {
            assert(filing_text(events[groups[g]@[0] as int], field) != filing_text(
                events[groups[h]@[0] as int],
                field,
            ));
        } else if h < g {
            assert(filing_text(events[groups[h]@[0] as int], field) != filing_text(
                events[groups[g]@[0] as int],
                field,
            ));
        }
        assert(g == h);
        assert(ls[g].contains(a) && ls[g].contains(b));
    }
}

/// The text under which `field` files the event, if any.
fn filing_entry(ev: &ChainsawEvent, field: Field) -> (out: Option<&String>)
    ensures
        match out {
            Some(s) => filing_text(ev@, field) == Some(s@),
            None => filing_text(ev@, field) is None,
        },
{
    match ev.text(field) {
        Some(s) => {
            if s.as_str().is_empty() {
                None
            } else {
                Some(s)
            }
        },
        None => None,
    }
}

/// An event is filed into the group that has its text.
proof fn lemma_filed_into(
    before: Seq<Vec<usize>>,
    after: Seq<Vec<usize>>,
    events: Seq<EventView>,
    field: Field,
    i: int,
    home: Seq<int>,
    g: int,
)
    requires
        text_filed(before, events, field, i, home),
        0 <= i < events.len(),
        i <= usize::MAX,
        0 <= g < before.len(),
        filing_text(events[i], field) is Some,
        filing_text(events[before[g]@[0] as int], field) == filing_text(events[i], field),
        after.len() == before.len(),
        after[g]@ == before[g]@.push(i as usize),
        forall|h: int| 0 <= h < before.len() && h != g ==> after[h] == before[h],
    ensures
        text_filed(after, events, field, i + 1, home.push(g)),
{
    let homes = home.push(g);
    assert forall|h: int| 0 <= h < after.len() implies (#[trigger] after[h])@.len() > 0 by {
        assert(before[h]@.len() > 0);
    }
    assert forall|h: int, k: int| 0 <= h < after.len() && 0 <= k < after[h]@.len() implies {
        &&& (#[trigger] after[h]@[k]) < i + 1
        &&& filing_text(events[after[h]@[k] as int], field) is Some
        &&& filing_text(events[after[h]@[k] as int], field) == filing_text(
            events[after[h]@[0] as int],
            field,
        )
    } by {
        assert(before[h]@.len() > 0);
        if h == g {
            if k < before[g]@.len() {
                assert(after[h]@[k] == before[g]@[k]);
            }
            assert(after[h]@[0] == before[g]@[0]);
        } else {
            assert(before[h]@[k] < i);
        }
    }
    assert forall|h1: int, h2: int| 0 <= h1 < h2 < after.len() implies filing_text(
        events[(#[trigger] after[h1])@[0] as int],
        field,
    ) != filing_text(events[(#[trigger] after[h2])@[0] as int], field) by {
        assert(before[h1]@.len() > 0 && before[h2]@.len() > 0);
        assert(after[h1]@[0] == before[h1]@[0]);
        assert(after[h2]@[0] == before[h2]@[0]);
    }
    assert forall|e: int| 0 <= e < i + 1 && filing_text(events[e], field) is Some implies {
        &&& 0 <= #[trigger] homes[e] < after.len()
        &&& after[homes[e]]@.contains(e as usize)
    } by {
        if e < i {
            let h = home[e];
            assert(before[h]@.contains(e as usize));
            if h == g {
                lemma_push_contains(before[g]@, i as usize, e as usize);
            }
        } else {
            lemma_push_contains(before[g]@, i as usize, i as usize);
        }
    }
}

/// An event whose text no group has opens a group of its own.
proof fn lemma_filed_apart(
    before: Seq<Vec<usize>>,
    after: Seq<Vec<usize>>,
    events: Seq<EventView>,
    field: Field,
    i: int,
    home: Seq<int>,
)
    requires
        text_filed(before, events, field, i, home),
        0 <= i < events.len(),
        i <= usize::MAX,
        filing_text(events[i], field) is Some,
        forall|h: int|
            0 <= h < before.len() ==> filing_text(events[(#[trigger] before[h])@[0] as int], field)
                != filing_text(events[i], field),
        after.len() == before.len() + 1,
        after[before.len() as int]@ == seq![i as usize],
        forall|h: int| 0 <= h < before.len() ==> after[h] == before[h],
    ensures
        text_filed(after, events, field, i + 1, home.push(before.len() as int)),
{
    let g = before.len() as int;
    let homes = home.push(g);
    assert forall|h: int| 0 <= h < after.len() implies (#[trigger] after[h])@.len() > 0 by {
        if h < g {
            assert(before[h]@.len() > 0);
        }
    }
    assert forall|h: int, k: int| 0 <= h < after.len() && 0 <= k < after[h]@.len() implies {
        &&& (#[trigger] after[h]@[k]) < i + 1
        &&& filing_text(events[after[h]@[k] as int], field) is Some
        &&& filing_text(events[after[h]@[k] as int], field) == filing_text(
            events[after[h]@[0] as int],
            field,
        )
    } by {
        if h < g {
            assert(before[h]@[k] < i);
        }
    }
    assert forall|h1: int, h2: int| 0 <= h1 < h2 < after.len() implies filing_text(
        events[(#[trigger] after[h1])@[0] as int],
        field,
    ) != filing_text(events[(#[trigger] after[h2])@[0] as int], field) by {
        assert(after[h1] == before[h1]);
        if h2 < g {
            assert(after[h2] == before[h2]);
        }
    }
    assert forall|e: int| 0 <= e < i + 1 && filing_text(events[e], field) is Some implies {
        &&& 0 <= #[trigger] homes[e] < after.len()
        &&& after[homes[e]]@.contains(e as usize)
    } by {
        if e < i {
            let h = home[e];
            assert(after[h] == before[h]);
        } else {
            assert(after[g]@[0] == i as usize);
        }
    }
}

/// An event without a text is filed nowhere.
proof fn lemma_filed_nowhere(
    groups: Seq<Vec<usize>>,
    events: Seq<EventView>,
    field: Field,
    i: int,
    home: Seq<int>,
)
    requires
        text_filed(groups, events, field, i, home),
        0 <= i < events.len(),
        filing_text(events[i], field) is None,
    ensures
        text_filed(groups, events, field, i + 1, home.push(-1)),
{
    assert forall|g: int, k: int| 0 <= g < groups.len() && 0 <= k < groups[g]@.len() implies (
    #[trigger] groups[g]@[k]) < i + 1 by {
        assert(groups[g]@[k] < i);
    }
}

/// Groups the events by the text of one field: one group for each text that
/// is not empty, holding the positions of the events that have it.
pub(crate) fn group_by_text(events: &[ChainsawEvent], field: Field) -> (groups: Vec<Vec<usize>>)
    ensures
        groups_match(lists(groups@), events@.len(), text_relation(views(events@), field)),
{
    let ghost evs = views(events@);
    let mut groups: Vec<Vec<usize>> = Vec::new();
    let ghost mut home: Seq<int> = Seq::empty();
    let mut i: usize = 0;
    while i < events.len()
        invariant
            i <= events.len(),
            evs == views(events@),
            text_filed(groups@, evs, field, i as int, home),
        decreases events.len() - i,
    {
        let ghost before = groups@;
        match filing_entry(&events[i], field) {
            Some(s) => {
                let mut g: usize = 0;
                let mut found: bool = false;
                while g < groups.len() && !found
                    invariant
                        g <= groups.len(),
                        i < events.len(),
                        evs == views(events@),
                        text_filed(groups@, evs, field, i as int, home),
                        filing_text(evs[i as int], field) == Some(s@),
                        found ==> g < groups.len() && filing_text(
                            evs[groups@[g as int]@[0] as int],
                            field,
                        ) == Some(s@),
                        forall|h: int|
                            0 <= h < g ==> filing_text(
                                evs[(#[trigger] groups@[h])@[0] as int],
                                field,
                            ) != Some(s@),
                    decreases groups.len() - g + (if found { 0int } else { 1int }),
                {
                    assert(groups@[g as int]@.len() > 0);
                    let first: usize = groups[g][0];
                    assert(groups@[g as int]@[0] < i);
                    let same: bool = match filing_entry(&events[first], field) {
                        Some(t) => *t == *s,
                        None => false,
                    };
                    if same {
                        found = true;
                    } else {
                        g += 1;
                    }
                }
                if found {
                    groups[g].push(i);
                    proof {
                        lemma_filed_into(before, groups@, evs, field, i as int, home, g as int);
                        home = home.push(g as int);
                    }
                } else {
                    let mut fresh: Vec<usize> = Vec::new();
                    fresh.push(i);
                    groups.push(fresh);
                    proof {
                        assert(groups@[before.len() as int]@ =~= seq![i]);
                        lemma_filed_apart(before, groups@, evs, field, i as int, home);
                        home = home.push(before.len() as int);
                    }
                }
            },
            None => {
                proof {
                    lemma_filed_nowhere(groups@, evs, field, i as int, home);
                    home = home.push(-1);
                }
            },
        }
        i += 1;
    }
    proof {
        lemma_text_filed_matches(groups@, evs, field, home);
    }
    groups
}

/// Whether a second is the second of an instant or one of the `delta`
/// seconds after it.
pub open spec fn in_window(at: Timestamp, delta: int, second: int) -> bool {
    at.seconds <= second <= at.seconds + reach(delta)
}

/// Whether the event at position `e` has an instant, with `second` in its
/// window.
pub open spec fn covers(instants: Seq<Option<Timestamp>>, delta: int, e: int, second: int) -> bool {
    &&& 0 <= e < instants.len()
    &&& instants[e] is Some
    &&& in_window(instants[e]->0, delta, second)
}

/// The table of seconds names for every second the group that `keys` gives
/// it, and no other.
spec fn slots_agree(slots: Map<i64, usize>, keys: Seq<i64>) -> bool {
    &&& forall|t: i64| #[trigger]
        slots.contains_key(t) ==> slots[t] < keys.len() && keys[slots[t] as int] == t
    &&& forall|g: int|
        0 <= g < keys.len() ==> slots.contains_key(#[trigger] keys[g]) && slots[keys[g]] == g
}

/// What holds of the groups of seconds while the events before `upto` have
/// been filed under all their seconds, and the event at `upto` under those
/// below `reached`.
spec fn seconds_filed(
    slots: Map<i64, usize>,
    keys: Seq<i64>,
    groups: Seq<Vec<usize>>,
    instants: Seq<Option<Timestamp>>,
    delta: int,
    upto: int,
    reached: int,
) -> bool {
    &&& keys.len() == groups.len()
    &&& slots_agree(slots, keys)
    &&& forall|g: int, k: int|
        0 <= g < groups.len() && 0 <= k < groups[g]@.len() ==> {
            &&& (#[trigger] groups[g]@[k]) <= upto
            &&& covers(instants, delta, groups[g]@[k] as int, keys[g] as int)
        }
    &&& forall|e: int, t: i64|
        0 <= e < upto && #[trigger] covers(instants, delta, e, t as int) ==> slots.contains_key(t)
            && groups[slots[t] as int]@.contains(e as usize)
    &&& forall|t: i64|
        t < reached && #[trigger] covers(instants, delta, upto, t as int) ==> slots.contains_key(t)
            && groups[slots[t] as int]@.contains(upto as usize)
}

/// An event joins the group of a second that has one.
proof fn lemma_second_joined(
    slots: Map<i64, usize>,
    keys: Seq<i64>,
    before: Seq<Vec<usize>>,
    after: Seq<Vec<usize>>,
    instants: Seq<Option<Timestamp>>,
    delta: int,
    e: usize,
    second: i64,
)
    requires
        seconds_filed(slots, keys, before, instants, delta, e as int, second as int),
        covers(instants, delta, e as int, second as int),
        slots.contains_key(second),
        after.len() == before.len(),
        after[slots[second] as int]@ == before[slots[second] as int]@.push(e),
        forall|h: int| 0 <= h < before.len() && h != slots[second] ==> after[h] == before[h],
    ensures
        seconds_filed(slots, keys, after, instants, delta, e as int, second + 1),
{
    let g = slots[second] as int;
    assert forall|h: int, k: int| 0 <= h < after.len() && 0 <= k < after[h]@.len() implies {
        &&& (#[trigger] after[h]@[k]) <= e
        &&& covers(instants, delta, after[h]@[k] as int, keys[h] as int)
    } by {
        if h == g {
            if k < before[g]@.len() {
                assert(after[h]@[k] == before[g]@[k]);
            }
        } else {
            assert(before[h]@[k] <= e);
        }
    }
    assert forall|x: int, t: i64|
        0 <= x < e && #[trigger] covers(instants, delta, x, t as int) implies slots.contains_key(t)
        && after[slots[t] as int]@.contains(x as usize) by {
        let h = slots[t] as int;
        assert(before[h]@.contains(x as usize));
        if h == g {
            lemma_push_contains(before[g]@, e, x as usize);
        }
    }
    assert forall|t: i64|
        t < second + 1 && #[trigger] covers(
            instants,
            delta,
            e as int,
            t as int,
        ) implies slots.contains_key(t) && after[slots[t] as int]@.contains(e) by {
        if t < second {
            let h = slots[t] as int;
            assert(before[h]@.contains(e));
            if h == g {
                lemma_push_contains(before[g]@, e, e);
            }
        } else {
            lemma_push_contains(before[g]@, e, e);
        }
    }
}

/// An event opens the group of a second that has none.
proof fn lemma_second_opened(
    slots: Map<i64, usize>,
    keys: Seq<i64>,
    before: Seq<Vec<usize>>,
    after: Seq<Vec<usize>>,
    instants: Seq<Option<Timestamp>>,
    delta: int,
    e: usize,
    second: i64,
)
    requires
        seconds_filed(slots, keys, before, instants, delta, e as int, second as int),
        covers(instants, delta, e as int, second as int),
        !slots.contains_key(second),
        before.len() <= usize::MAX,
        after.len() == before.len() + 1,
        after[before.len() as int]@ == seq![e],
        forall|h: int| 0 <= h < before.len() ==> after[h] == before[h],
    ensures
        seconds_filed(
            slots.insert(second, before.len() as usize),
            keys.push(second),
            after,
            instants,
            delta,
            e as int,
            second + 1,
        ),
{
    let g = before.len() as int;
    let slots1 = slots.insert(second, before.len() as usize);
    let keys1 = keys.push(second);
    assert forall|t: i64| #[trigger] slots1.contains_key(t) implies slots1[t] < keys1.len()
        && keys1[slots1[t] as int] == t by {
        if t != second {
            assert(slots.contains_key(t));
        }
    }
    assert forall|h: int| 0 <= h < keys1.len() implies slots1.contains_key(#[trigger] keys1[h])
        && slots1[keys1[h]] == h by {
        if h < g {
            assert(slots.contains_key(keys[h]));
        }
    }
    assert forall|h: int, k: int| 0 <= h < after.len() && 0 <= k < after[h]@.len() implies {
        &&& (#[trigger] after[h]@[k]) <= e
        &&& covers(instants, delta, after[h]@[k] as int, keys1[h] as int)
    } by {
        if h < g {
            assert(before[h]@[k] <= e);
        }
    }
    assert forall|x: int, t: i64|
        0 <= x < e && #[trigger] covers(instants, delta, x, t as int) implies slots1.contains_key(t)
        && after[slots1[t] as int]@.contains(x as usize) by {
        assert(slots.contains_key(t));
        let h = slots[t] as int;
        assert(after[h] == before[h]);
    }
    assert forall|t: i64|
        t < second + 1 && #[trigger] covers(
            instants,
            delta,
            e as int,
            t as int,
        ) implies slots1.contains_key(t) && after[slots1[t] as int]@.contains(e) by {
        if t < second {
            assert(slots.contains_key(t));
            let h = slots[t] as int;
            assert(after[h] == before[h]);
        } else {
            assert(after[g]@[0] == e);
        }
    }
}

/// Files the event at position `e` under one second.
fn file_under(
    slots: &mut HashMap<i64, usize>,
    keys: &mut Vec<i64>,
    groups: &mut Vec<Vec<usize>>,
    second: i64,
    e: usize,
    Ghost(instants): Ghost<Seq<Option<Timestamp>>>,
    Ghost(delta): Ghost<int>,
)
    requires
        seconds_filed(old(slots)@, old(keys)@, old(groups)@, instants, delta, e as int, second as int),
        covers(instants, delta, e as int, second as int),
    ensures
        seconds_filed(
            final(slots)@,
            final(keys)@,
            final(groups)@,
            instants,
            delta,
            e as int,
            second + 1,
        ),
{
    broadcast use vstd::std_specs::hash::group_hash_axioms;

    let ghost slots0 = slots@;
    let ghost keys0 = keys@;
    let ghost groups0 = groups@;
    let known: Option<usize> = match slots.get(&second) {
        Some(g) => Some(*g),
        None => None,
    };
    match known {
        Some(g) => {
            groups[g].push(e);
            proof {
                lemma_second_joined(slots0, keys0, groups0, groups@, instants, delta, e, second);
            }
        },
        None => {
            let g: usize = groups.len();
            let mut fresh: Vec<usize> = Vec::new();
            fresh.push(e);
            groups.push(fresh);
            keys.push(second);
            slots.insert(second, g);
            proof {
                assert(groups@[g as int]@ =~= seq![e]);
                lemma_second_opened(slots0, keys0, groups0, groups@, instants, delta, e, second);
            }
        },
    }
}

proof fn lemma_seconds_filed_matches(
    slots: Map<i64, usize>,
    keys: Seq<i64>,
    groups: Seq<Vec<usize>>,
    events: Seq<EventView>,
    instants: Seq<Option<Timestamp>>,
    delta: int,
    reached: int,
)
    requires
        instants.len() == events.len(),
        forall|e: int| 0 <= e < events.len() ==> instants[e] == instant_of_field(events[e].timestamp),
        seconds_filed(slots, keys, groups, instants, delta, events.len() as int, reached),
    ensures
        groups_match(lists(groups), events.len(), window_relation(events, delta)),
{
    let ls = lists(groups);
    let related = window_relation(events, delta);
    assert forall|g: int, k: int| 0 <= g < ls.len() && 0 <= k < ls[g].len() implies #[trigger] ls[g][k]
        < events.len() by {
        assert(covers(instants, delta, groups[g]@[k] as int, keys[g] as int));
    }
    assert forall|g: int, j: int, k: int|
        0 <= g < ls.len() && 0 <= j < ls[g].len() && 0 <= k < ls[g].len() implies related(
        #[trigger] ls[g][j],
        #[trigger] ls[g][k],
    ) by {
        assert(covers(instants, delta, groups[g]@[j] as int, keys[g] as int));
        assert(covers(instants, delta, groups[g]@[k] as int, keys[g] as int));
    }
    assert forall|a: usize, b: usize| a < events.len() && b < events.len() && #[trigger] related(
        a,
        b,
    ) implies together(ls, a, b) by {
        let x = instants[a as int]->0;
        let y = instants[b as int]->0;
        let t: i64 = if x.seconds >= y.seconds {
            x.seconds
        } else {
            y.seconds
        };
        assert(covers(instants, delta, a as int, t as int));
        assert(covers(instants, delta, b as int, t as int));
        let g = slots[t] as int;
        assert(ls[g].contains(a) && ls[g].contains(b));
    }
}

/// Once an event is filed under every second of its window, the next event
/// can be taken up.
proof fn lemma_second_done(
    slots: Map<i64, usize>,
    keys: Seq<i64>,
    groups: Seq<Vec<usize>>,
    instants: Seq<Option<Timestamp>>,
    delta: int,
    e: int,
    reached: int,
)
    requires
        seconds_filed(slots, keys, groups, instants, delta, e, reached),
        forall|t: i64| #[trigger] covers(instants, delta, e, t as int) ==> t < reached,
    ensures
        seconds_filed(slots, keys, groups, instants, delta, e + 1, i64::MIN as int),
{
    assert forall|g: int, k: int| 0 <= g < groups.len() && 0 <= k < groups[g]@.len() implies (
    #[trigger] groups[g]@[k]) <= e + 1 by {
        assert(groups[g]@[k] <= e);
    }
}

/// Groups the events by second: one group for each second that is the
/// second of some event or one of the `delta` seconds after it, holding the
/// positions of the events that are filed under it.  An event without an
/// instant is in no group; with a negative `delta` an event is filed under
/// its own second alone.
pub(crate) fn group_by_second(events: &[ChainsawEvent], delta: i64) -> (groups: Vec<Vec<usize>>)
    ensures
        groups_match(lists(groups@), events@.len(), window_relation(views(events@), delta as int)),
{
    broadcast use vstd::std_specs::hash::group_hash_axioms;

    let ahead: i64 = if delta < 0 { 0 } else { delta };
    let instants = crate::timestamp::event_instants(events);
    let mut slots: HashMap<i64, usize> = HashMap::new();
    let mut keys: Vec<i64> = Vec::new();
    let mut groups: Vec<Vec<usize>> = Vec::new();
    let mut i: usize = 0;
    while i < events.len()
        invariant
            i <= events.len(),
            instants@ == instants_of(events@),
            ahead == reach(delta as int),
            seconds_filed(slots@, keys@, groups@, instants@, delta as int, i as int, i64::MIN as int),
        decreases events.len() - i,
    {
        let ghost mut reached: int = i64::MIN as int;
        match instants[i] {
            Some(at) => {
                // The last second to file under, as far as a 64-bit number
                // can hold it.
                let high: i64 = if at.seconds <= i64::MAX - ahead {
                    at.seconds + ahead
                } else {
                    i64::MAX
                };
                let mut second: i64 = at.seconds;
                loop
                    invariant
                        i < events.len(),
                        instants@.len() == events.len(),
                        instants@[i as int] == Some(at),
                        ahead == reach(delta as int),
                        at.seconds <= second <= high,
                        high <= at.seconds + ahead,
                        seconds_filed(
                            slots@,
                            keys@,
                            groups@,
                            instants@,
                            delta as int,
                            i as int,
                            second as int,
                        ),
                    ensures
                        seconds_filed(
                            slots@,
                            keys@,
                            groups@,
                            instants@,
                            delta as int,
                            i as int,
                            high + 1,
                        ),
                    decreases high - second,
                {
                    file_under(
                        &mut slots,
                        &mut keys,
                        &mut groups,
                        second,
                        i,
                        Ghost(instants@),
                        Ghost(delta as int),
                    );
                    if second == high {
                        break ;
                    }
                    second += 1;
                }
                proof {
                    reached = high + 1;
                }
            },
            None => {},
        }
        proof {
            lemma_second_done(slots@, keys@, groups@, instants@, delta as int, i as int, reached);
        }
        i += 1;
    }
    proof {
        lemma_seconds_filed_matches(
            slots@,
            keys@,
            groups@,
            views(events@),
            instants@,
            delta as int,
            i64::MIN as int,
        );
    }
    groups
}

} // verus!
