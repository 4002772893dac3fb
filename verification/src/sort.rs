//! Ordering a narrowed list of events by a sort criterion.
//!
//! The order is that of a stable insertion: each position is moved in front
//! of its left neighbours for as long as its key comes strictly before
//! theirs.  For the criteria that compare one field this is the ascending
//! stable order.  The time criterion compares the gap between two instants
//! with a number of seconds; that is no order on instants, and the result is
//! what the insertion makes of it.

use vstd::prelude::*;
use crate::event::{views, ChainsawEvent, EventView};
use crate::query::in_range;
use crate::text::{
    chars_before, collect_chars, lemma_text_before_irreflexive, lemma_text_before_total,
    lemma_text_before_transitive, text_before,
};
use crate::timestamp::{event_instant, gap_seconds, instant_of_field, seconds_apart, Timestamp};

verus! {

/// What a list of events is ordered by.
#[derive(Debug, Clone, Copy, PartialEq, Eq, Structural)]
pub enum SortCriteria {
    /// Nearness in time: one event comes before another when the instants
    /// are less than this many seconds apart.
    Date(i64),
    /// The user SID.
    Sid,
    /// The path.
    Path,
    /// The event id, by number.
    EventId,
    /// The computer name.
    Computer,
    /// The user name.
    User,
}

impl Default for SortCriteria {
    fn default() -> (out: SortCriteria)
        ensures
            out == SortCriteria::Date(0),
    {
        SortCriteria::Date(0)
    }
}

/// The key of an event under a criterion.
pub enum SortKey {
    Instant(Timestamp),
    Text(Option<Vec<char>>),
    Number(Option<u32>),
}

/// A key as the contracts see it.
pub enum KeyView {
    Instant(Timestamp),
    Text(Option<Seq<char>>),
    Number(Option<u32>),
}

impl View for SortKey {
    type V = KeyView;

    open spec fn view(&self) -> KeyView {
        match *self {
            SortKey::Instant(t) => KeyView::Instant(t),
            SortKey::Text(Some(chars)) => KeyView::Text(Some(chars@)),
            SortKey::Text(None) => KeyView::Text(None),
            SortKey::Number(n) => KeyView::Number(n),
        }
    }
}

/// The key of an event: for the time criterion its instant, or `now` where
/// it has no timestamp that parses; otherwise the field that the criterion
/// names.
pub open spec fn key_of(ev: EventView, criteria: SortCriteria, now: Timestamp) -> KeyView {
    match criteria {
        SortCriteria::Date(_) => KeyView::Instant(
            match instant_of_field(ev.timestamp) {
                Some(t) => t,
                None => now,
            },
        ),
        SortCriteria::Sid => KeyView::Text(ev.user_sid),
        SortCriteria::Path => KeyView::Text(ev.path),
        SortCriteria::EventId => KeyView::Number(ev.event_id),
        SortCriteria::Computer => KeyView::Text(ev.computer),
        SortCriteria::User => KeyView::Text(ev.user),
    }
}

/// An absent text comes before every present one; two present texts compare
/// as texts.
pub open spec fn optional_text_before(a: Option<Seq<char>>, b: Option<Seq<char>>) -> bool {
    match (a, b) {
        (Some(x), Some(y)) => text_before(x, y),
        (None, Some(_)) => true,
        _ => false,
    }
}

/// An absent number comes before every present one; two present numbers
/// compare as numbers.
pub open spec fn optional_number_before(a: Option<u32>, b: Option<u32>) -> bool {
    match (a, b) {
        (Some(x), Some(y)) => x < y,
        (None, Some(_)) => true,
        _ => false,
    }
}

/// Whether key `a` comes strictly before key `b`.
pub open spec fn key_before(a: KeyView, b: KeyView, criteria: SortCriteria) -> bool {
    match (a, b) {
        (KeyView::Instant(x), KeyView::Instant(y)) => match criteria {
            SortCriteria::Date(delta) => gap_seconds(x, y) < delta,
            _ => false,
        },
        (KeyView::Text(x), KeyView::Text(y)) => optional_text_before(x, y),
        (KeyView::Number(x), KeyView::Number(y)) => optional_number_before(x, y),
        _ => false,
    }
}

/// The comparison of two positions by the keys of their events.
pub open spec fn precedes(events: Seq<EventView>, criteria: SortCriteria, now: Timestamp) -> spec_fn(
    usize,
    usize,
) -> bool {
    |a: usize, b: usize|
        key_before(
            key_of(events[a as int], criteria, now),
            key_of(events[b as int], criteria, now),
            criteria,
        )
}

/// `x` put into `sorted` from the right: it passes every element that it
/// comes strictly before, and stops at the first that it does not.
pub open spec fn insert_stable(
    sorted: Seq<usize>,
    x: usize,
    before: spec_fn(usize, usize) -> bool,
) -> Seq<usize>
    decreases sorted.len(),
{
    if sorted.len() > 0 && before(x, sorted.last()) {
        insert_stable(sorted.drop_last(), x, before).push(sorted.last())
    } else {
        sorted.push(x)
    }
}

/// The positions of `view`, put in one by one from the left.
pub open spec fn stable_order(view: Seq<usize>, before: spec_fn(usize, usize) -> bool) -> Seq<
    usize,
>
    decreases view.len(),
{
    if view.len() == 0 {
        Seq::empty()
    } else {
        insert_stable(stable_order(view.drop_last(), before), view.last(), before)
    }
}

/// Where an insertion lands: behind a left part that it does not pass, in
/// front of a right part all of which it comes strictly before.
pub proof fn lemma_insert_shape(sorted: Seq<usize>, x: usize, before: spec_fn(usize, usize) -> bool)
    ensures
        exists|j: int|
            {
                &&& 0 <= j <= sorted.len()
                &&& #[trigger] insert_shape(sorted, x, before, j)
            },
    decreases sorted.len(),
{
    if sorted.len() > 0 && before(x, sorted.last()) {
        let rest = sorted.drop_last();
        lemma_insert_shape(rest, x, before);
        let j = choose|j: int| 0 <= j <= rest.len() && #[trigger] insert_shape(rest, x, before, j);
        assert(rest.take(j) =~= sorted.take(j));
        assert(insert_stable(sorted, x, before) =~= sorted.take(j).push(x) + sorted.skip(j)) by {
            assert(rest.skip(j).push(sorted.last()) =~= sorted.skip(j));
        }
        assert forall|k: int| j <= k < sorted.len() implies before(x, #[trigger] sorted[k]) by {
            if k < rest.len() {
                assert(rest[k] == sorted[k]);
            }
        }
        if j > 0 {
            assert(rest[j - 1] == sorted[j - 1]);
        }
        assert(insert_shape(sorted, x, before, j));
    } else {
        let j = sorted.len() as int;
        assert(sorted.take(j) =~= sorted);
        assert(sorted.skip(j) =~= Seq::<usize>::empty());
        assert(insert_stable(sorted, x, before) =~= sorted.take(j).push(x) + sorted.skip(j));
        assert(insert_shape(sorted, x, before, j));
    }
}

/// `x` lands at position `j` of `sorted`.
pub open spec fn insert_shape(
    sorted: Seq<usize>,
    x: usize,
    before: spec_fn(usize, usize) -> bool,
    j: int,
) -> bool {
    &&& 0 <= j <= sorted.len()
    &&& insert_stable(sorted, x, before) == sorted.take(j).push(x) + sorted.skip(j)
    &&& forall|k: int| j <= k < sorted.len() ==> before(x, #[trigger] sorted[k])
    &&& j > 0 ==> !before(x, sorted[j - 1])
}

/// The order holds the positions of the list, each as often as the list.
pub proof fn lemma_stable_order_permutes(view: Seq<usize>, before: spec_fn(usize, usize) -> bool)
    ensures
        stable_order(view, before).to_multiset() == view.to_multiset(),
        stable_order(view, before).len() == view.len(),
    decreases view.len(),
{
    broadcast use vstd::seq_lib::group_to_multiset_ensures;

    if view.len() > 0 {
        let rest = view.drop_last();
        let x = view.last();
        lemma_stable_order_permutes(rest, before);
        let t = stable_order(rest, before);
        lemma_insert_shape(t, x, before);
        let j = choose|j: int| 0 <= j <= t.len() && #[trigger] insert_shape(t, x, before, j);
        let out = stable_order(view, before);
        assert(view =~= rest.push(x));
        assert(t =~= t.take(j) + t.skip(j));
        vstd::seq_lib::lemma_multiset_commutative(t.take(j), t.skip(j));
        vstd::seq_lib::lemma_multiset_commutative(t.take(j).push(x), t.skip(j));
        assert(out.to_multiset() =~= t.to_multiset().insert(x));
    } else {
        assert(stable_order(view, before) =~= view);
    }
}

/// Whatever stands in the order stands in the list, and the other way round.
pub proof fn lemma_stable_order_members(view: Seq<usize>, before: spec_fn(usize, usize) -> bool)
    ensures
        forall|x: usize| #[trigger] stable_order(view, before).contains(x) <==> view.contains(x),
{
    lemma_stable_order_permutes(view, before);
    view.to_multiset_ensures();
    let out = stable_order(view, before);
    out.to_multiset_ensures();
    assert forall|x: usize| #[trigger] out.contains(x) <==> view.contains(x) by {
        assert(out.to_multiset().count(x) == view.to_multiset().count(x));
    }
}

/// Stability: where the order puts `out[a]` in front of `out[b]` although
/// `out[a]` does not come strictly before it, the list had them in that
/// order already.  No pair is turned round unless the comparison says so.
pub proof fn lemma_stable_order_keeps_pairs(
    view: Seq<usize>,
    before: spec_fn(usize, usize) -> bool,
    a: int,
    b: int,
)
    requires
        0 <= a < b < stable_order(view, before).len(),
        !before(stable_order(view, before)[a], stable_order(view, before)[b]),
    ensures
        exists|p: int, q: int|
            0 <= p < q < view.len() && #[trigger] view[p] == stable_order(view, before)[a]
                && #[trigger] view[q] == stable_order(view, before)[b],
    decreases view.len(),
{
    let out = stable_order(view, before);
    lemma_stable_order_permutes(view, before);
    if view.len() > 0 {
        let rest = view.drop_last();
        let x = view.last();
        let t = stable_order(rest, before);
        lemma_stable_order_permutes(rest, before);
        lemma_insert_shape(t, x, before);
        let j = choose|j: int| 0 <= j <= t.len() && #[trigger] insert_shape(t, x, before, j);
        assert(out == t.take(j).push(x) + t.skip(j));
        if b == j {
            // out[b] is the new position: out[a] stood in the list before it.
            assert(out[a] == t[a]);
            lemma_stable_order_members(rest, before);
            assert(t.contains(t[a]));
            let p = choose|p: int| 0 <= p < rest.len() && rest[p] == t[a];
            assert(view[p] == out[a] && view[view.len() - 1] == out[b]);
        } else if a == j {
            // out[a] is the new position, and it comes strictly before all to its right.
            assert(out[b] == t[b - 1]);
            assert(before(x, t[b - 1]));
        } else {
            let a0 = if a < j { a } else { a - 1 };
            let b0 = if b < j { b } else { b - 1 };
            assert(out[a] == t[a0] && out[b] == t[b0]);
            lemma_stable_order_keeps_pairs(rest, before, a0, b0);
            let (p, q) = choose|p: int, q: int|
                0 <= p < q < rest.len() && #[trigger] rest[p] == t[a0] && #[trigger] rest[q]
                    == t[b0];
            assert(view[p] == out[a] && view[q] == out[b]);
        }
    }
}

/// A comparison that orders: never both ways round, and what is before
/// neither of two things that are in order is not between them.
pub open spec fn orders(before: spec_fn(usize, usize) -> bool) -> bool {
    &&& forall|x: usize, y: usize| #[trigger] before(x, y) ==> !before(y, x)
    &&& forall|x: usize, y: usize, z: usize|
        !#[trigger] before(x, y) && !#[trigger] before(y, z) ==> !before(x, z)
}

/// Under a comparison that orders, the result is ascending: no position
/// comes strictly before one that stands in front of it.
pub proof fn lemma_stable_order_ascends(view: Seq<usize>, before: spec_fn(usize, usize) -> bool)
    requires
        orders(before),
    ensures
        forall|a: int, b: int|
            0 <= a < b < stable_order(view, before).len() ==> !before(
                #[trigger] stable_order(view, before)[b],
                #[trigger] stable_order(view, before)[a],
            ),
    decreases view.len(),
{
    let out = stable_order(view, before);
    if view.len() > 0 {
        let rest = view.drop_last();
        let x = view.last();
        let t = stable_order(rest, before);
        lemma_stable_order_ascends(rest, before);
        lemma_insert_shape(t, x, before);
        let j = choose|j: int| 0 <= j <= t.len() && #[trigger] insert_shape(t, x, before, j);
        assert(out == t.take(j).push(x) + t.skip(j));
        assert forall|a: int, b: int| 0 <= a < b < out.len() implies !before(
            #[trigger] out[b],
            #[trigger] out[a],
        ) by {
            if b == j {
                assert(out[a] == t[a]);
                if a < j - 1 {
                    assert(!before(t[j - 1], t[a]));
                    assert(!before(x, t[j - 1]));
                }
            } else if a == j {
                assert(out[b] == t[b - 1]);
                assert(before(x, t[b - 1]));
            } else {
                let a0 = if a < j { a } else { a - 1 };
                let b0 = if b < j { b } else { b - 1 };
                assert(out[a] == t[a0] && out[b] == t[b0]);
            }
        }
    }
}

/// The criteria that compare one field order the events.
pub proof fn lemma_field_criteria_order(events: Seq<EventView>, criteria: SortCriteria, now: Timestamp)
    requires
        !(criteria is Date),
    ensures
        orders(precedes(events, criteria, now)),
{
    let before = precedes(events, criteria, now);
    assert forall|x: usize, y: usize| #[trigger] before(x, y) implies !before(y, x) by {
        let kx = key_of(events[x as int], criteria, now);
        let ky = key_of(events[y as int], criteria, now);
        match (kx, ky) {
            (KeyView::Text(Some(s)), KeyView::Text(Some(t))) => {
                if text_before(t, s) {
                    lemma_text_before_transitive(s, t, s);
                    lemma_text_before_irreflexive(s);
                }
            },
            _ => {},
        }
    }
    assert forall|x: usize, y: usize, z: usize|
        !#[trigger] before(x, y) && !#[trigger] before(y, z) implies !before(x, z) by {
        let kx = key_of(events[x as int], criteria, now);
        let ky = key_of(events[y as int], criteria, now);
        let kz = key_of(events[z as int], criteria, now);
        match (kx, ky, kz) {
            (KeyView::Text(Some(r)), KeyView::Text(Some(s)), KeyView::Text(Some(t))) => {
                if text_before(r, t) {
                    lemma_text_before_total(r, s);
                    if text_before(s, r) {
                        lemma_text_before_transitive(s, r, t);
                    }
                }
            },
            _ => {},
        }
    }
}

/// Two events with equal keys are not in strict order, unless the criterion
/// is nearness in time with a positive number of seconds.
pub proof fn lemma_equal_keys_unordered(
    events: Seq<EventView>,
    criteria: SortCriteria,
    now: Timestamp,
    x: usize,
    y: usize,
)
    requires
        key_of(events[x as int], criteria, now) == key_of(events[y as int], criteria, now),
        criteria matches SortCriteria::Date(delta) ==> delta <= 0,
    ensures
        !precedes(events, criteria, now)(x, y),
{
    match key_of(events[x as int], criteria, now) {
        KeyView::Text(Some(s)) => {
            lemma_text_before_irreflexive(s);
        },
        _ => {},
    }
}

/// Events with equal sort keys keep the order that the list gave them:
/// where the result shows one in front of the other, so did the list.  This
/// holds for every criterion but nearness in time with a positive number of
/// seconds, under which an event comes strictly before its equal.
pub proof fn lemma_sort_stable(
    events: Seq<EventView>,
    view: Seq<usize>,
    criteria: SortCriteria,
    now: Timestamp,
    a: int,
    b: int,
)
    requires
        criteria matches SortCriteria::Date(delta) ==> delta <= 0,
        0 <= a < b < sorted_view(events, view, criteria, now).len(),
        key_of(events[sorted_view(events, view, criteria, now)[a] as int], criteria, now) == key_of(
            events[sorted_view(events, view, criteria, now)[b] as int],
            criteria,
            now,
        ),
    ensures
        exists|p: int, q: int|
            0 <= p < q < view.len() && #[trigger] view[p] == sorted_view(
                events,
                view,
                criteria,
                now,
            )[a] && #[trigger] view[q] == sorted_view(events, view, criteria, now)[b],
{
    let out = sorted_view(events, view, criteria, now);
    lemma_equal_keys_unordered(events, criteria, now, out[a], out[b]);
    lemma_stable_order_keeps_pairs(view, precedes(events, criteria, now), a, b);
}

/// The list in the order of the criterion.
pub open spec fn sorted_view(
    events: Seq<EventView>,
    view: Seq<usize>,
    criteria: SortCriteria,
    now: Timestamp,
) -> Seq<usize> {
    stable_order(view, precedes(events, criteria, now))
}

/// The characters of an optional text.
pub fn optional_chars(field: &Option<String>) -> (out: Option<Vec<char>>)
    ensures
        match out {
            Some(chars) => crate::event::text_of(*field) == Some(chars@),
            None => *field is None,
        },
{
    match field {
        Some(s) => Some(collect_chars(s.as_str())),
        None => None,
    }
}

/// The key of one event.
pub fn sort_key(ev: &ChainsawEvent, criteria: &SortCriteria, now: Timestamp) -> (key: SortKey)
    ensures
        key@ == key_of(ev@, *criteria, now),
{
    match criteria {
        SortCriteria::Date(_) => match event_instant(ev) {
            Some(t) => SortKey::Instant(t),
            None => SortKey::Instant(now),
        },
        SortCriteria::Sid => SortKey::Text(optional_chars(&ev.user_sid)),
        SortCriteria::Path => SortKey::Text(optional_chars(&ev.path)),
        SortCriteria::EventId => SortKey::Number(ev.event_id),
        SortCriteria::Computer => SortKey::Text(optional_chars(&ev.computer)),
        SortCriteria::User => SortKey::Text(optional_chars(&ev.user)),
    }
}

/// Whether key `a` comes strictly before key `b`.
pub fn key_precedes(a: &SortKey, b: &SortKey, criteria: &SortCriteria) -> (before: bool)
    ensures
        before == key_before(a@, b@, *criteria),
{
    match (a, b) {
        (SortKey::Instant(x), SortKey::Instant(y)) => match criteria {
            SortCriteria::Date(delta) => seconds_apart(*x, *y) < *delta as i128,
            _ => false,
        },
        (SortKey::Text(x), SortKey::Text(y)) => match (x, y) {
            (Some(s), Some(t)) => chars_before(s, t),
            (None, Some(_)) => true,
            _ => false,
        },
        (SortKey::Number(x), SortKey::Number(y)) => match (x, y) {
            (Some(m), Some(n)) => *m < *n,
            (None, Some(_)) => true,
            _ => false,
        },
        _ => false,
    }
}

/// The keys of all events, position by position.
fn sort_keys(events: &[ChainsawEvent], criteria: &SortCriteria, now: Timestamp) -> (keys: Vec<
    SortKey,
>)
    ensures
        keys.len() == events.len(),
        forall|i: int|
            0 <= i < events.len() ==> (#[trigger] keys@[i])@ == key_of(events@[i]@, *criteria, now),
{
    let mut keys: Vec<SortKey> = Vec::new();
    let mut i: usize = 0;
    while i < events.len()
        invariant
            i <= events.len(),
            keys.len() == i,
            forall|k: int|
                0 <= k < i ==> (#[trigger] keys@[k])@ == key_of(events@[k]@, *criteria, now),
        decreases events.len() - i,
    {
        keys.push(sort_key(&events[i], criteria, now));
        i += 1;
    }
    keys
}

/// Where `x` has passed the elements of `sorted` from position `j` on, what
/// is left to do is to put it into those before `j`.
spec fn passed(sorted: Seq<usize>, x: usize, before: spec_fn(usize, usize) -> bool, j: int) -> bool {
    &&& 0 <= j <= sorted.len()
    &&& insert_stable(sorted, x, before) == insert_stable(sorted.take(j), x, before) + sorted.skip(
        j,
    )
}

proof fn lemma_passed_none(sorted: Seq<usize>, x: usize, before: spec_fn(usize, usize) -> bool)
    ensures
        passed(sorted, x, before, sorted.len() as int),
{
    let j = sorted.len() as int;
    assert(sorted.take(j) =~= sorted);
    assert(sorted.skip(j) =~= Seq::<usize>::empty());
    assert(insert_stable(sorted, x, before) =~= insert_stable(sorted.take(j), x, before)
        + sorted.skip(j));
}

proof fn lemma_passed_one_more(
    sorted: Seq<usize>,
    x: usize,
    before: spec_fn(usize, usize) -> bool,
    j: int,
)
    requires
        passed(sorted, x, before, j),
        j > 0,
        before(x, sorted[j - 1]),
    ensures
        passed(sorted, x, before, j - 1),
{
    let left = sorted.take(j);
    assert(left.last() == sorted[j - 1]);
    assert(left.drop_last() =~= sorted.take(j - 1));
    assert(insert_stable(left, x, before) == insert_stable(sorted.take(j - 1), x, before).push(
        sorted[j - 1],
    ));
    assert(insert_stable(sorted, x, before) =~= insert_stable(sorted.take(j - 1), x, before)
        + sorted.skip(j - 1));
}

proof fn lemma_passed_all(
    sorted: Seq<usize>,
    x: usize,
    before: spec_fn(usize, usize) -> bool,
    j: int,
)
    requires
        passed(sorted, x, before, j),
        j > 0 ==> !before(x, sorted[j - 1]),
    ensures
        insert_stable(sorted, x, before) == sorted.take(j).push(x) + sorted.skip(j),
{
    let left = sorted.take(j);
    if j > 0 {
        assert(left.last() == sorted[j - 1]);
    }
    assert(insert_stable(left, x, before) == left.push(x));
}

/// Orders the positions of `view` by the criterion.  `now` stands for the
/// instant of every event that has no timestamp that parses.
///
/// The result holds the same positions as `view`.  Two positions change
/// their order only where the one behind comes strictly before the one in
/// front; under a criterion that compares one field the result is ascending.
pub fn sort_view(
    events: &[ChainsawEvent],
    view: &Vec<usize>,
    criteria: &SortCriteria,
    now: Timestamp,
) -> (out: Vec<usize>)
    requires
        in_range(view@, events@.len()),
    ensures
        out@ == sorted_view(views(events@), view@, *criteria, now),
        out@.to_multiset() == view@.to_multiset(),
        out@.len() == view@.len(),
        in_range(out@, events@.len()),
        !(*criteria is Date) ==> forall|a: int, b: int|
            0 <= a < b < out@.len() ==> !precedes(views(events@), *criteria, now)(
                #[trigger] out@[b],
                #[trigger] out@[a],
            ),
{
    let ghost before = precedes(views(events@), *criteria, now);
    let keys = sort_keys(events, criteria, now);
    let mut out: Vec<usize> = Vec::new();
    let mut i: usize = 0;
    assert(view@.take(0) =~= Seq::<usize>::empty());
    while i < view.len()
        invariant
            i <= view.len(),
            in_range(view@, events@.len()),
            before == precedes(views(events@), *criteria, now),
            keys.len() == events.len(),
            forall|k: int|
                0 <= k < events.len() ==> (#[trigger] keys@[k])@ == key_of(
                    events@[k]@,
                    *criteria,
                    now,
                ),
            out@ == stable_order(view@.take(i as int), before),
            out@.len() == i,
            in_range(out@, events@.len()),
        decreases view.len() - i,
    {
        // Put `x` behind the others, then let it pass its left neighbours
        // for as long as it comes strictly before them.
        let x: usize = view[i];
        let ghost sorted = out@;
        out.push(x);
        let mut j: usize = i;
        proof {
            lemma_passed_none(sorted, x, before);
        }
        while j > 0 && key_precedes(&keys[x], &keys[out[j - 1]], criteria)
            invariant
                0 <= j <= i,
                x < events.len(),
                sorted.len() == i,
                in_range(sorted, events@.len()),
                out@.len() == i + 1,
                before == precedes(views(events@), *criteria, now),
                keys.len() == events.len(),
                forall|k: int|
                    0 <= k < events.len() ==> (#[trigger] keys@[k])@ == key_of(
                        events@[k]@,
                        *criteria,
                        now,
                    ),
                forall|k: int| 0 <= k < j ==> out@[k] == sorted[k],
                forall|k: int| j < k <= i ==> out@[k] == sorted[k - 1],
                passed(sorted, x, before, j as int),
            decreases j,
        {
            let moved: usize = out[j - 1];
            proof {
                lemma_passed_one_more(sorted, x, before, j as int);
            }
            out.set(j, moved);
            j -= 1;
        }
        out.set(j, x);
        proof {
            lemma_passed_all(sorted, x, before, j as int);
            assert(out@ =~= sorted.take(j as int).push(x) + sorted.skip(j as int));
            let longer = view@.take(i + 1);
            assert(longer.drop_last() =~= view@.take(i as int));
            assert(longer.last() == x);
        }
        i += 1;
    }
    proof {
        assert(view@.take(view.len() as int) =~= view@);
        lemma_stable_order_permutes(view@, before);
        if !(*criteria is Date) {
            lemma_field_criteria_order(views(events@), *criteria, now);
            lemma_stable_order_ascends(view@, before);
        }
    }
    out
}

/// What a list of events shows: the positions of the events that pass the
/// type filter and then the search, in the order of the criterion.
pub open spec fn shown_positions(
    events: Seq<EventView>,
    selected: Option<Seq<char>>,
    query: Seq<char>,
    criteria: SortCriteria,
    now: Timestamp,
) -> Seq<usize> {
    sorted_view(
        events,
        crate::query::every_position(events.len()).filter(
            crate::query::type_keeps(events, selected),
        ).filter(crate::query::search_keeps(events, query)),
        criteria,
        now,
    )
}

/// Narrows and orders a list of events: first the type filter, then the
/// search, then the sort.
pub fn filtered_sorted_view(
    events: &[ChainsawEvent],
    selected: &Option<String>,
    query: &str,
    criteria: &SortCriteria,
    now: Timestamp,
) -> (out: Vec<usize>)
    ensures
        out@ == shown_positions(
            views(events@),
            crate::event::text_of(*selected),
            query@,
            *criteria,
            now,
        ),
        in_range(out@, events@.len()),
{
    let everything = crate::query::all_positions(events.len());
    assert(views(events@).len() == events@.len());
    let typed = crate::query::filter_by_type(events, &everything, selected);
    let found = crate::query::filter_by_search(events, &typed, query);
    sort_view(events, &found, criteria, now)
}

} // verus!
