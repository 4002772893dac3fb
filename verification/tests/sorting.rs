use chainsaw_engine::event::ChainsawEvent;
use chainsaw_engine::sort::{
    filtered_sorted_view, key_precedes, sort_key, sort_view, SortCriteria, SortKey,
};
use chainsaw_engine::timestamp::Timestamp;

const NOW: Timestamp = Timestamp { seconds: 1_000, nanos: 0 };

fn with_sid(sid: Option<&str>) -> ChainsawEvent {
    let mut ev = ChainsawEvent::empty();
    ev.user_sid = sid.map(|s| s.to_string());
    ev
}

fn with_time(ts: Option<&str>) -> ChainsawEvent {
    let mut ev = ChainsawEvent::empty();
    ev.timestamp = ts.map(|s| s.to_string());
    ev
}

fn whole(n: usize) -> Vec<usize> {
    (0..n).collect()
}

#[test]
fn default_criterion() {
    assert_eq!(SortCriteria::default(), SortCriteria::Date(0));
}

#[test]
fn sorts_by_sid() {
    let events = vec![
        with_sid(Some("b")),
        with_sid(None),
        with_sid(Some("a")),
        with_sid(Some("b")),
        with_sid(Some("ab")),
        with_sid(Some("")),
    ];
    assert_eq!(sort_view(&events, &whole(6), &SortCriteria::Sid, NOW), vec![1, 5, 2, 4, 0, 3]);
}

#[test]
fn sorts_by_each_text_field() {
    let mut x = ChainsawEvent::empty();
    x.path = Some("/b".to_string());
    x.computer = Some("one".to_string());
    x.user = Some("zed".to_string());
    let mut y = ChainsawEvent::empty();
    y.path = Some("/a".to_string());
    y.computer = Some("two".to_string());
    y.user = Some("amy".to_string());
    let mut z = ChainsawEvent::empty();
    z.path = Some("/c".to_string());
    z.user = Some("bob".to_string());
    let events = vec![x, y, z];
    assert_eq!(sort_view(&events, &whole(3), &SortCriteria::Path, NOW), vec![1, 0, 2]);
    assert_eq!(sort_view(&events, &whole(3), &SortCriteria::Computer, NOW), vec![2, 0, 1]);
    assert_eq!(sort_view(&events, &whole(3), &SortCriteria::User, NOW), vec![1, 2, 0]);
    assert_eq!(sort_view(&events, &whole(3), &SortCriteria::Sid, NOW), vec![0, 1, 2]);
}

#[test]
fn sorts_event_ids_as_numbers() {
    let ids = [Some(10), Some(9), None, Some(100), Some(9), Some(0)];
    let events: Vec<ChainsawEvent> = ids
        .iter()
        .map(|id| {
            let mut ev = ChainsawEvent::empty();
            ev.event_id = *id;
            ev
        })
        .collect();
    assert_eq!(
        sort_view(&events, &whole(6), &SortCriteria::EventId, NOW),
        vec![2, 5, 1, 4, 0, 3]
    );
}

#[test]
fn equal_keys_keep_their_order() {
    let events = vec![
        with_sid(Some("s")),
        with_sid(Some("r")),
        with_sid(Some("s")),
        with_sid(Some("r")),
        with_sid(Some("s")),
    ];
    assert_eq!(sort_view(&events, &whole(5), &SortCriteria::Sid, NOW), vec![1, 3, 0, 2, 4]);
    assert_eq!(
        sort_view(&events, &vec![4, 3, 2, 1, 0], &SortCriteria::Sid, NOW),
        vec![3, 1, 4, 2, 0]
    );
    assert_eq!(sort_view(&events, &whole(5), &SortCriteria::Path, NOW), whole(5));
}

#[test]
fn sorting_agrees_with_the_stable_sort_of_std() {
    let sids = ["b", "a", "c", "a", "", "b", "ab", "B", "é", "a"];
    let events: Vec<ChainsawEvent> = sids.iter().map(|s| with_sid(Some(s))).collect();
    let mut expected = whole(events.len());
    expected.sort_by(|a, b| events[*a].user_sid.cmp(&events[*b].user_sid));
    assert_eq!(sort_view(&events, &whole(events.len()), &SortCriteria::Sid, NOW), expected);
}

#[test]
fn sorting_keeps_the_positions() {
    let events = vec![with_sid(Some("b")), with_sid(Some("a")), with_sid(None)];
    let mut out = sort_view(&events, &vec![2, 0, 0, 1], &SortCriteria::Sid, NOW);
    assert_eq!(out, vec![2, 1, 0, 0]);
    out.sort();
    assert_eq!(out, vec![0, 0, 1, 2]);
    assert_eq!(sort_view(&events, &vec![], &SortCriteria::Sid, NOW), Vec::<usize>::new());
}

#[test]
fn nearness_with_zero_seconds_changes_nothing() {
    let events = vec![
        with_time(Some("2024-01-01T00:00:05Z")),
        with_time(Some("2024-01-01T00:00:00Z")),
        with_time(Some("2024-01-01T00:00:05Z")),
        with_time(None),
    ];
    assert_eq!(sort_view(&events, &whole(4), &SortCriteria::Date(0), NOW), whole(4));
    assert_eq!(sort_view(&events, &whole(4), &SortCriteria::Date(-5), NOW), whole(4));
}

#[test]
fn nearness_moves_an_event_in_front_of_those_close_to_it() {
    let events = vec![
        with_time(Some("1970-01-01T00:00:00Z")),
        with_time(Some("1970-01-01T00:00:01Z")),
        with_time(Some("1970-01-01T00:00:02Z")),
    ];
    // Every event is less than ten seconds from each of the others.
    assert_eq!(sort_view(&events, &whole(3), &SortCriteria::Date(10), NOW), vec![2, 1, 0]);
    // Only neighbours are less than two seconds apart: the third event
    // stops behind the first, which is two seconds from it.
    assert_eq!(sort_view(&events, &whole(3), &SortCriteria::Date(2), NOW), vec![1, 0, 2]);
    // A gap of exactly the number of seconds is not less.
    assert_eq!(sort_view(&events, &whole(3), &SortCriteria::Date(1), NOW), vec![0, 1, 2]);
}

#[test]
fn nearness_stops_at_the_first_event_that_is_far() {
    let events = vec![
        with_time(Some("1970-01-01T00:00:00Z")),
        with_time(Some("1970-01-01T00:01:40Z")),
        with_time(Some("1970-01-01T00:00:01Z")),
    ];
    assert_eq!(sort_view(&events, &whole(3), &SortCriteria::Date(10), NOW), vec![0, 1, 2]);
}

#[test]
fn nearness_turns_equal_instants_round() {
    let events = vec![
        with_time(Some("1970-01-01T00:00:07Z")),
        with_time(Some("1970-01-01T00:00:07Z")),
    ];
    assert_eq!(sort_view(&events, &whole(2), &SortCriteria::Date(1), NOW), vec![1, 0]);
}

#[test]
fn an_event_without_instant_counts_as_now() {
    let events = vec![
        with_time(None),
        with_time(Some("1970-01-01T00:16:35Z")),
        with_time(Some("no time")),
        with_time(Some("1970-01-01T00:00:00Z")),
    ];
    // 995 s is five seconds from now; the two events without instant are
    // zero seconds from each other.
    assert_eq!(sort_view(&events, &whole(4), &SortCriteria::Date(10), NOW), vec![2, 1, 0, 3]);
    let later = Timestamp { seconds: 5_000, nanos: 0 };
    // With a later now the event at 995 s is far from both, and stands
    // between them.
    assert_eq!(sort_view(&events, &whole(4), &SortCriteria::Date(10), later), vec![0, 1, 2, 3]);
}

#[test]
fn nearness_counts_whole_seconds() {
    let events = vec![
        with_time(Some("1970-01-01T00:00:00.900Z")),
        with_time(Some("1970-01-01T00:00:01.100Z")),
        with_time(Some("1970-01-01T00:00:02.100Z")),
    ];
    // 0.2 s and 1.0 s and 1.2 s apart: zero, one and one whole seconds.
    assert_eq!(sort_view(&events, &whole(3), &SortCriteria::Date(1), NOW), vec![1, 0, 2]);
}

#[test]
fn keys_of_an_event() {
    let mut ev = ChainsawEvent::empty();
    ev.user_sid = Some("S-1".to_string());
    ev.event_id = Some(7);
    ev.timestamp = Some("1970-01-01T00:00:03Z".to_string());
    assert!(matches!(
        sort_key(&ev, &SortCriteria::Sid, NOW),
        SortKey::Text(Some(chars)) if chars == vec!['S', '-', '1']
    ));
    assert!(matches!(sort_key(&ev, &SortCriteria::Path, NOW), SortKey::Text(None)));
    assert!(matches!(sort_key(&ev, &SortCriteria::Computer, NOW), SortKey::Text(None)));
    assert!(matches!(sort_key(&ev, &SortCriteria::User, NOW), SortKey::Text(None)));
    assert!(matches!(sort_key(&ev, &SortCriteria::EventId, NOW), SortKey::Number(Some(7))));
    assert!(matches!(
        sort_key(&ev, &SortCriteria::Date(4), NOW),
        SortKey::Instant(Timestamp { seconds: 3, nanos: 0 })
    ));
    assert!(matches!(
        sort_key(&ChainsawEvent::empty(), &SortCriteria::Date(4), NOW),
        SortKey::Instant(Timestamp { seconds: 1_000, nanos: 0 })
    ));
}

#[test]
fn comparing_keys() {
    let none = SortKey::Text(None);
    let a = SortKey::Text(Some(vec!['a']));
    let b = SortKey::Text(Some(vec!['b']));
    assert!(key_precedes(&none, &a, &SortCriteria::Sid));
    assert!(!key_precedes(&a, &none, &SortCriteria::Sid));
    assert!(!key_precedes(&none, &none, &SortCriteria::Sid));
    assert!(key_precedes(&a, &b, &SortCriteria::Path));
    assert!(!key_precedes(&b, &a, &SortCriteria::Path));
    assert!(!key_precedes(&a, &a, &SortCriteria::Path));
    let three = SortKey::Number(Some(3));
    let ten = SortKey::Number(Some(10));
    assert!(key_precedes(&three, &ten, &SortCriteria::EventId));
    assert!(!key_precedes(&ten, &three, &SortCriteria::EventId));
    assert!(key_precedes(&SortKey::Number(None), &three, &SortCriteria::EventId));
    assert!(!key_precedes(&three, &SortKey::Number(None), &SortCriteria::EventId));
    assert!(!key_precedes(&three, &a, &SortCriteria::EventId));
    let early = SortKey::Instant(Timestamp { seconds: 0, nanos: 0 });
    let late = SortKey::Instant(Timestamp { seconds: 9, nanos: 0 });
    assert!(key_precedes(&early, &late, &SortCriteria::Date(10)));
    assert!(key_precedes(&late, &early, &SortCriteria::Date(10)));
    assert!(!key_precedes(&early, &late, &SortCriteria::Date(9)));
    assert!(!key_precedes(&early, &late, &SortCriteria::Sid));
}

#[test]
fn filter_then_search_then_sort() {
    let rows = [
        ("logon", "/bin/sh", "S-3"),
        ("logon", "/bin/ls", "S-1"),
        ("other", "/bin/sh", "S-0"),
        ("logon", "/usr/bin/sh", "S-2"),
        ("logon", "/bin/sh", "S-1"),
    ];
    let events: Vec<ChainsawEvent> = rows
        .iter()
        .map(|(label, path, sid)| {
            let mut ev = ChainsawEvent::empty();
            ev.detections = Some(label.to_string());
            ev.path = Some(path.to_string());
            ev.user_sid = Some(sid.to_string());
            ev
        })
        .collect();
    let logon = Some("logon".to_string());
    assert_eq!(
        filtered_sorted_view(&events, &logon, "sh", &SortCriteria::Sid, NOW),
        vec![4, 3, 0]
    );
    assert_eq!(
        filtered_sorted_view(&events, &None, "", &SortCriteria::Sid, NOW),
        vec![2, 1, 4, 3, 0]
    );
    assert_eq!(
        filtered_sorted_view(&events, &None, "/bin", &SortCriteria::Path, NOW),
        vec![1, 0, 2, 4, 3]
    );
    assert_eq!(
        filtered_sorted_view(&events, &None, "S-1", &SortCriteria::Path, NOW),
        vec![1, 4]
    );
    assert_eq!(
        filtered_sorted_view(&events, &logon, "nothing", &SortCriteria::Path, NOW),
        Vec::<usize>::new()
    );
    assert_eq!(
        filtered_sorted_view(&[], &logon, "sh", &SortCriteria::Date(60), NOW),
        Vec::<usize>::new()
    );
}
