//! Narrowing a list of events: the type filter, the text search, search
//! suggestions and the set of detection labels.
//!
//! A narrowed list is a sequence of positions into the list of events, in
//! the order in which they are to be shown.

use vstd::prelude::*;
use crate::event::{
    field_of, searchable, searchable_field, shown, text_of, views, ChainsawEvent, EventView,
    SEARCHABLE_FIELDS,
};
use crate::text::{collect_chars, contains_chars, is_substring};

verus! {

/// The positions `0, 1, .., n - 1`.
pub open spec fn every_position(n: nat) -> Seq<usize> {
    Seq::new(n, |i: int| i as usize)
}

/// Every position of a list of `n` events, in order.
pub fn all_positions(n: usize) -> (out: Vec<usize>)
    ensures
        out@ == every_position(n as nat),
{
    let mut out: Vec<usize> = Vec::new();
    let mut i: usize = 0;
    while i < n
        invariant
            i <= n,
            out@ == every_position(i as nat),
        decreases n - i,
    {
        out.push(i);
        i += 1;
        assert(out@ =~= every_position(i as nat));
    }
    out
}

/// Every position in `view` points into a list of `n` events.
pub open spec fn in_range(view: Seq<usize>, n: nat) -> bool {
    forall|k: int| 0 <= k < view.len() ==> #[trigger] view[k] < n
}

/// Whether an event passes the type filter: with no type selected, or the
/// empty one, every event passes; otherwise those whose detection label is
/// the selected type.
pub open spec fn passes_type(ev: EventView, selected: Option<Seq<char>>) -> bool {
    match selected {
        Some(wanted) => wanted.len() == 0 || ev.detections == Some(wanted),
        None => true,
    }
}

/// The type filter as a predicate on positions.
pub open spec fn type_keeps(events: Seq<EventView>, selected: Option<Seq<char>>) -> spec_fn(
    usize,
) -> bool {
    |i: usize| i < events.len() && passes_type(events[i as int], selected)
}

/// Whether an event passes the type filter.
pub fn event_has_type(ev: &ChainsawEvent, selected: &Option<String>) -> (pass: bool)
    ensures
        pass == passes_type(ev@, text_of(*selected)),
{
    match selected {
        None => true,
        Some(wanted) => {
            if wanted.as_str().is_empty() {
                true
            } else {
                match &ev.detections {
                    Some(label) => *label == *wanted,
                    None => false,
                }
            }
        },
    }
}

/// Keeps the positions of `view` whose events pass the type filter, in their
/// order.  A position outside the list of events is dropped.
pub fn filter_by_type(events: &[ChainsawEvent], view: &Vec<usize>, selected: &Option<String>) -> (out:
    Vec<usize>)
    ensures
        out@ == view@.filter(type_keeps(views(events@), text_of(*selected))),
        in_range(out@, events@.len()),
{
    let ghost keeps = type_keeps(views(events@), text_of(*selected));
    let mut out: Vec<usize> = Vec::new();
    let mut k: usize = 0;
    proof {
        reveal(Seq::filter);
        assert(view@.take(0) =~= Seq::<usize>::empty());
    }
    while k < view.len()
        invariant
            k <= view.len(),
            keeps == type_keeps(views(events@), text_of(*selected)),
            out@ == view@.take(k as int).filter(keeps),
            in_range(out@, events@.len()),
        decreases view.len() - k,
    {
        let i: usize = view[k];
        proof {
            let longer = view@.take(k + 1);
            assert(longer.drop_last() =~= view@.take(k as int));
            assert(longer.last() == i);
            reveal(Seq::filter);
        }
        if i < events.len() && event_has_type(&events[i], selected) {
            out.push(i);
        }
        k += 1;
    }
    assert(view@.take(view.len() as int) =~= view@);
    out
}

/// Whether an event passes the search: the query is a substring of at least
/// one searchable field, an absent field reading as the empty text.
pub open spec fn passes_search(ev: EventView, query: Seq<char>) -> bool {
    exists|k: int|
        0 <= k < searchable().len() && is_substring(
            shown(field_of(ev, #[trigger] searchable()[k])),
            query,
        )
}

/// The search as a predicate on positions.
pub open spec fn search_keeps(events: Seq<EventView>, query: Seq<char>) -> spec_fn(usize) -> bool {
    |i: usize| i < events.len() && passes_search(events[i as int], query)
}

/// The characters of a field as a search reads it.
pub fn shown_chars(field: &Option<String>) -> (out: Vec<char>)
    ensures
        out@ == shown(text_of(*field)),
{
    match field {
        Some(s) => collect_chars(s.as_str()),
        None => Vec::new(),
    }
}

/// Whether an event passes the search for `query`.
pub fn event_mentions(ev: &ChainsawEvent, query: &Vec<char>) -> (hit: bool)
    ensures
        hit == passes_search(ev@, query@),
{
    let mut k: usize = 0;
    while k < SEARCHABLE_FIELDS
        invariant
            k <= SEARCHABLE_FIELDS,
            forall|j: int|
                0 <= j < k ==> !is_substring(
                    shown(field_of(ev@, #[trigger] searchable()[j])),
                    query@,
                ),
        decreases SEARCHABLE_FIELDS - k,
    {
        let field = searchable_field(k);
        let hay = shown_chars(ev.text(field));
        if contains_chars(&hay, query) {
            return true;
        }
        k += 1;
    }
    false
}

/// Keeps the positions of `view` whose events pass the search for `query`,
/// in their order.  The empty query keeps every event; a position outside
/// the list of events is dropped.
pub fn filter_by_search(events: &[ChainsawEvent], view: &Vec<usize>, query: &str) -> (out: Vec<
    usize,
>)
    ensures
        out@ == view@.filter(search_keeps(views(events@), query@)),
        in_range(out@, events@.len()),
        forall|k: int|
            0 <= k < out@.len() ==> passes_search(#[trigger] events@[out@[k] as int]@, query@),
        forall|k: int|
            0 <= k < view@.len() && view@[k] < events@.len() && !out@.contains(#[trigger] view@[k])
                ==> !passes_search(events@[view@[k] as int]@, query@),
{
    let ghost keeps = search_keeps(views(events@), query@);
    let needle = collect_chars(query);
    let mut out: Vec<usize> = Vec::new();
    let mut k: usize = 0;
    proof {
        reveal(Seq::filter);
        assert(view@.take(0) =~= Seq::<usize>::empty());
    }
    while k < view.len()
        invariant
            k <= view.len(),
            needle@ == query@,
            keeps == search_keeps(views(events@), query@),
            out@ == view@.take(k as int).filter(keeps),
            in_range(out@, events@.len()),
        decreases view.len() - k,
    {
        let i: usize = view[k];
        proof {
            let longer = view@.take(k + 1);
            assert(longer.drop_last() =~= view@.take(k as int));
            assert(longer.last() == i);
            reveal(Seq::filter);
        }
        if i < events.len() && event_mentions(&events[i], &needle) {
            out.push(i);
        }
        k += 1;
    }
    proof {
        assert(view@.take(view.len() as int) =~= view@);
        lemma_search_law(views(events@), view@, query@);
        assert forall|k: int| 0 <= k < out@.len() implies passes_search(
            #[trigger] events@[out@[k] as int]@,
            query@,
        ) by {
            assert(out@.contains(out@[k]));
        }
    }
    out
}

/// Filtering keeps exactly the members that the predicate accepts.
pub proof fn lemma_filter_members(view: Seq<usize>, keeps: spec_fn(usize) -> bool)
    ensures
        forall|i: usize|
            #[trigger] view.filter(keeps).contains(i) <==> view.contains(i) && keeps(i),
{
    let out = view.filter(keeps);
    assert forall|i: usize| #[trigger] out.contains(i) <==> view.contains(i) && keeps(i) by {
        if out.contains(i) {
            let k = choose|k: int| 0 <= k < out.len() && out[k] == i;
            view.lemma_filter_pred(keeps, k);
            view.lemma_filter_contains_rev(keeps, i);
        }
        if view.contains(i) && keeps(i) {
            let k = choose|k: int| 0 <= k < view.len() && view[k] == i;
            view.lemma_filter_contains(keeps, k);
        }
    }
}

/// Filtering twice by one predicate is filtering once.
pub proof fn lemma_filter_idempotent(view: Seq<usize>, keeps: spec_fn(usize) -> bool)
    ensures
        view.filter(keeps).filter(keeps) == view.filter(keeps),
    decreases view.len(),
{
    reveal(Seq::filter);
    if view.len() > 0 {
        let rest = view.drop_last();
        lemma_filter_idempotent(rest, keeps);
        if keeps(view.last()) {
            let kept = rest.filter(keeps);
            let longer = kept.push(view.last());
            assert(longer.drop_last() =~= kept);
            assert(longer.last() == view.last());
        }
    }
}

/// Applying one type filter twice gives what applying it once gives.
pub proof fn lemma_type_filter_idempotent(
    events: Seq<EventView>,
    view: Seq<usize>,
    selected: Option<Seq<char>>,
)
    ensures
        view.filter(type_keeps(events, selected)).filter(type_keeps(events, selected))
            == view.filter(type_keeps(events, selected)),
{
    lemma_filter_idempotent(view, type_keeps(events, selected));
}

/// The search keeps every listed event that holds the query in one of its
/// searchable fields, and no other: an event in the result holds it, and a
/// listed event that is not in the result holds it in none.
pub proof fn lemma_search_law(events: Seq<EventView>, view: Seq<usize>, query: Seq<char>)
    ensures
        forall|i: usize| #[trigger]
            view.filter(search_keeps(events, query)).contains(i) ==> i < events.len()
                && passes_search(events[i as int], query),
        forall|i: usize|
            #[trigger] view.contains(i) && i < events.len() && !view.filter(
                search_keeps(events, query),
            ).contains(i) ==> !passes_search(events[i as int], query),
{
    lemma_filter_members(view, search_keeps(events, query));
}

/// The suggestions that the first `upto` searchable fields of one event
/// give: each present field that holds the query, in field order.
pub open spec fn field_suggestions(ev: EventView, query: Seq<char>, upto: int) -> Seq<Seq<char>>
    decreases upto,
{
    if upto <= 0 {
        Seq::empty()
    } else {
        let earlier = field_suggestions(ev, query, upto - 1);
        match field_of(ev, searchable()[upto - 1]) {
            Some(value) => if is_substring(value, query) {
                earlier.push(value)
            } else {
                earlier
            },
            None => earlier,
        }
    }
}

/// The suggestions for a query: none for the empty query; otherwise, event
/// by event and field by field, every present searchable field that holds
/// the query.  A value that occurs in several events is listed once for
/// each.
pub open spec fn suggestions(events: Seq<EventView>, query: Seq<char>) -> Seq<Seq<char>>
    decreases events.len(),
{
    if query.len() == 0 || events.len() == 0 {
        Seq::empty()
    } else {
        suggestions(events.drop_last(), query) + field_suggestions(
            events.last(),
            query,
            SEARCHABLE_FIELDS as int,
        )
    }
}

/// The field values to offer as completions of `query`.
pub fn search_suggestions(events: &[ChainsawEvent], query: &str) -> (out: Vec<String>)
    ensures
        out.deep_view() == suggestions(views(events@), query@),
{
    let needle = collect_chars(query);
    let mut out: Vec<String> = Vec::new();
    if needle.len() == 0 {
        assert(out.deep_view() =~= Seq::<Seq<char>>::empty());
        return out;
    }
    let mut i: usize = 0;
    assert(views(events@).take(0) =~= Seq::<EventView>::empty());
    assert(out.deep_view() =~= Seq::<Seq<char>>::empty());
    while i < events.len()
        invariant
            i <= events.len(),
            needle@ == query@,
            query@.len() > 0,
            out.deep_view() == suggestions(views(events@).take(i as int), query@),
        decreases events.len() - i,
    {
        let ev = &events[i];
        let ghost before = out.deep_view();
        let mut k: usize = 0;
        assert(out.deep_view() =~= before + field_suggestions(ev@, query@, 0));
        while k < SEARCHABLE_FIELDS
            invariant
                k <= SEARCHABLE_FIELDS,
                needle@ == query@,
                out.deep_view() == before + field_suggestions(ev@, query@, k as int),
            decreases SEARCHABLE_FIELDS - k,
        {
            let field = searchable_field(k);
            let ghost old_out = out.deep_view();
            match ev.text(field) {
                Some(value) => {
                    let hay = collect_chars(value.as_str());
                    if contains_chars(&hay, &needle) {
                        out.push(value.clone());
                        assert(out.deep_view() =~= old_out.push(value@));
                    }
                },
                None => {},
            }
            k += 1;
            assert(out.deep_view() =~= before + field_suggestions(ev@, query@, k as int));
        }
        proof {
            let longer = views(events@).take(i + 1);
            assert(longer.drop_last() =~= views(events@).take(i as int));
            assert(longer.last() == ev@);
        }
        i += 1;
    }
    assert(views(events@).take(events.len() as int) =~= views(events@));
    out
}

/// The detection labels of a list of events, each once, in the order of
/// first occurrence.
pub open spec fn labels_seen(events: Seq<EventView>) -> Seq<Seq<char>>
    decreases events.len(),
{
    if events.len() == 0 {
        Seq::empty()
    } else {
        let earlier = labels_seen(events.drop_last());
        match events.last().detections {
            Some(label) => if earlier.contains(label) {
                earlier
            } else {
                earlier.push(label)
            },
            None => earlier,
        }
    }
}

/// No label is listed twice, and a label is listed exactly if some event
/// carries it.
pub proof fn lemma_labels_seen(events: Seq<EventView>)
    ensures
        labels_seen(events).no_duplicates(),
        forall|label: Seq<char>| #[trigger]
            labels_seen(events).contains(label) <==> exists|i: int|
                0 <= i < events.len() && #[trigger] events[i].detections == Some(label),
    decreases events.len(),
{
    if events.len() > 0 {
        let rest = events.drop_last();
        lemma_labels_seen(rest);
        let earlier = labels_seen(rest);
        let all = labels_seen(events);
        assert forall|label: Seq<char>| #[trigger]
            all.contains(label) <==> exists|i: int|
                0 <= i < events.len() && #[trigger] events[i].detections == Some(label) by {
            if all.contains(label) {
                if earlier.contains(label) {
                    let i = choose|i: int|
                        0 <= i < rest.len() && #[trigger] rest[i].detections == Some(label);
                    assert(events[i].detections == Some(label));
                } else {
                    let k = choose|k: int| 0 <= k < all.len() && all[k] == label;
                    assert(events[events.len() - 1].detections == Some(label));
                }
            }
            if exists|i: int|
                0 <= i < events.len() && #[trigger] events[i].detections == Some(label) {
                let i = choose|i: int|
                    0 <= i < events.len() && #[trigger] events[i].detections == Some(label);
                if i < rest.len() {
                    assert(rest[i].detections == Some(label));
                    assert(earlier.contains(label));
                    let k = choose|k: int| 0 <= k < earlier.len() && earlier[k] == label;
                    assert(all[k] == label);
                } else {
                    if earlier.contains(label) {
                    } else {
                        assert(all[all.len() - 1] == label);
                    }
                }
            }
        }
    }
}

fn holds_text(list: &Vec<String>, value: &String) -> (found: bool)
    ensures
        found == list.deep_view().contains(value@),
{
    let mut k: usize = 0;
    while k < list.len()
        invariant
            k <= list.len(),
            forall|j: int| 0 <= j < k ==> list.deep_view()[j] != value@,
        decreases list.len() - k,
    {
        if list[k] == *value {
            assert(list.deep_view()[k as int] == value@);
            return true;
        }
        k += 1;
    }
    false
}

/// The distinct detection labels of the events, in the order of first
/// occurrence.
pub fn unique_types(events: &[ChainsawEvent]) -> (out: Vec<String>)
    ensures
        out.deep_view() == labels_seen(views(events@)),
        out.deep_view().no_duplicates(),
{
    let mut out: Vec<String> = Vec::new();
    let mut i: usize = 0;
    assert(views(events@).take(0) =~= Seq::<EventView>::empty());
    assert(out.deep_view() =~= Seq::<Seq<char>>::empty());
    while i < events.len()
        invariant
            i <= events.len(),
            out.deep_view() == labels_seen(views(events@).take(i as int)),
        decreases events.len() - i,
    {
        proof {
            let longer = views(events@).take(i + 1);
            assert(longer.drop_last() =~= views(events@).take(i as int));
            assert(longer.last() == events@[i as int]@);
        }
        let ghost old_out = out.deep_view();
        match &events[i].detections {
            Some(label) => {
                if !holds_text(&out, label) {
                    out.push(label.clone());
                    assert(out.deep_view() =~= old_out.push(label@));
                }
            },
            None => {},
        }
        i += 1;
    }
    proof {
        assert(views(events@).take(events.len() as int) =~= views(events@));
        lemma_labels_seen(views(events@));
    }
    out
}

} // verus!
