use chainsaw_engine::event::ChainsawEvent;
use chainsaw_engine::navigation::{AppState, NavigationViolation};
use chainsaw_engine::session::{ChainsawApp, DEFAULT_DELTA_SECONDS};
use chainsaw_engine::sort::SortCriteria;
use chainsaw_engine::timestamp::Timestamp;

const NOW: Timestamp = Timestamp { seconds: 1_704_067_200, nanos: 0 };

fn event(ts: &str, label: &str, sid: &str, path: &str) -> ChainsawEvent {
    let mut ev = ChainsawEvent::empty();
    ev.timestamp = Some(ts.to_string());
    ev.detections = Some(label.to_string());
    ev.user_sid = Some(sid.to_string());
    ev.path = Some(path.to_string());
    ev
}

fn sample() -> Vec<ChainsawEvent> {
    vec![
        event("2024-01-01T00:00:00Z", "logon", "S-1", "/bin/sh"),
        event("2024-01-01T01:00:00Z", "logon", "S-1", "/bin/ls"),
        event("2024-01-01T00:00:02Z", "shell", "S-2", "/bin/sh"),
    ]
}

#[test]
fn a_session_at_its_start() {
    let app = ChainsawApp::new();
    assert!(!app.is_loaded());
    assert_eq!(app.events(), &Vec::<ChainsawEvent>::new());
    assert_eq!(app.selected_type(), &None);
    assert_eq!(app.sort_criteria(), SortCriteria::Date(0));
    assert_eq!(app.search_query(), "");
    assert_eq!(app.known_types(), &Vec::<String>::new());
    assert_eq!(app.delta(), 60);
    assert_eq!(DEFAULT_DELTA_SECONDS, 60);
    assert!(app.graph().is_none());
    assert_eq!(app.current_view(), AppState::Main);
    assert!(!app.can_go_back());
    assert_eq!(app.filtered_sorted_view(NOW), Vec::<usize>::new());
    let other = ChainsawApp::default();
    assert!(!other.is_loaded());
    assert_eq!(other.delta(), 60);
    assert_eq!(other.current_view(), AppState::Main);
}

#[test]
fn loading_events() {
    let mut app = ChainsawApp::new();
    app.load(sample());
    assert!(app.is_loaded());
    assert_eq!(app.events(), &sample());
    assert_eq!(app.known_types(), &vec!["logon".to_string(), "shell".to_string()]);
    assert!(app.graph().is_none());
    assert_eq!(app.current_view(), AppState::Main);
    app.load(vec![]);
    assert!(app.is_loaded());
    assert_eq!(app.events(), &Vec::<ChainsawEvent>::new());
    assert_eq!(app.known_types(), &Vec::<String>::new());
}

#[test]
fn the_query_narrows_and_orders_the_view() {
    let mut app = ChainsawApp::new();
    app.load(sample());
    assert_eq!(app.filtered_sorted_view(NOW), vec![0, 1, 2]);
    app.set_sort(SortCriteria::Path);
    assert_eq!(app.sort_criteria(), SortCriteria::Path);
    assert_eq!(app.filtered_sorted_view(NOW), vec![1, 0, 2]);
    app.set_filter(Some("logon".to_string()));
    assert_eq!(app.selected_type(), &Some("logon".to_string()));
    assert_eq!(app.filtered_sorted_view(NOW), vec![1, 0]);
    app.set_search("sh".to_string());
    assert_eq!(app.search_query(), "sh");
    assert_eq!(app.filtered_sorted_view(NOW), vec![0]);
    app.set_filter(Some(String::new()));
    assert_eq!(app.filtered_sorted_view(NOW), vec![0, 2]);
    app.set_filter(None);
    app.set_search(String::new());
    app.set_sort(SortCriteria::Sid);
    assert_eq!(app.filtered_sorted_view(NOW), vec![0, 1, 2]);
    assert_eq!(app.events(), &sample());
}

#[test]
fn select_all_on_and_off() {
    let mut app = ChainsawApp::new();
    app.load(sample());
    assert!(app.selects_all());
    app.select_all(false);
    assert!(!app.selects_all());
    assert_eq!(app.selected_type(), &Some(String::new()));
    assert_eq!(app.filtered_sorted_view(NOW), vec![0, 1, 2]);
    app.set_filter(Some("shell".to_string()));
    assert!(!app.selects_all());
    assert_eq!(app.filtered_sorted_view(NOW), vec![2]);
    app.select_all(true);
    assert!(app.selects_all());
    assert_eq!(app.selected_type(), &None);
    assert_eq!(app.filtered_sorted_view(NOW), vec![0, 1, 2]);
}

#[test]
fn suggestions_follow_the_search() {
    let mut app = ChainsawApp::new();
    app.load(sample());
    assert_eq!(app.suggestions(), Vec::<String>::new());
    app.set_search("sh".to_string());
    assert_eq!(app.suggestions(), vec!["/bin/sh", "shell", "/bin/sh"]);
}

#[test]
fn the_overview_builds_the_graph() {
    let mut app = ChainsawApp::new();
    app.load(sample());
    app.set_delta(5);
    assert_eq!(app.delta(), 5);
    assert!(app.graph().is_none());
    assert_eq!(app.push_overview(), Ok(()));
    assert_eq!(app.current_view(), AppState::CorrelatedEvents);
    let graph = app.graph().unwrap();
    assert_eq!(graph.node_count(), 3);
    assert_eq!(graph.window(), 5);
    assert!(graph.is_correlated(0, 1));
    assert!(graph.is_correlated(0, 2));
    assert!(!graph.is_correlated(1, 2));
}

#[test]
fn walking_the_graph() {
    let mut app = ChainsawApp::new();
    app.load(sample());
    app.set_delta(5);
    assert_eq!(app.push_detail(0), Err(NavigationViolation::NoGraph));
    app.push_overview().unwrap();
    assert_eq!(app.push_detail(1), Ok(()));
    assert_eq!(app.push_detail(2), Err(NavigationViolation::NotAdjacent));
    assert_eq!(app.push_detail(3), Err(NavigationViolation::UnknownNode));
    assert_eq!(app.push_detail(0), Ok(()));
    assert_eq!(app.push_detail(2), Ok(()));
    assert_eq!(app.current_view(), AppState::EventDetails(2));
    assert_eq!(app.push_overview(), Err(NavigationViolation::NotOffered));
    assert!(app.can_go_back());
    assert!(app.back());
    assert_eq!(app.current_view(), AppState::EventDetails(0));
    assert!(app.back());
    assert!(app.back());
    assert_eq!(app.current_view(), AppState::CorrelatedEvents);
    assert!(app.back());
    assert_eq!(app.current_view(), AppState::Main);
    assert!(!app.back());
    assert!(app.graph().is_some());
}

#[test]
fn details_need_the_right_view() {
    let mut app = ChainsawApp::new();
    app.load(sample());
    app.correlate();
    assert!(app.graph().is_some());
    assert_eq!(app.current_view(), AppState::Main);
    assert_eq!(app.push_detail(0), Err(NavigationViolation::NotOffered));
    assert_eq!(app.show_search_results(), Ok(()));
    assert_eq!(app.current_view(), AppState::SearchResults);
    assert_eq!(app.push_detail(0), Err(NavigationViolation::NotOffered));
    assert_eq!(app.push_overview(), Err(NavigationViolation::NotOffered));
    assert!(app.back());
}

#[test]
fn a_new_window_replaces_the_graph() {
    let mut app = ChainsawApp::new();
    app.load(vec![
        event("2024-01-01T00:00:00Z", "a", "S-1", "/1"),
        event("2024-01-01T00:00:10Z", "b", "S-2", "/2"),
    ]);
    app.set_delta(1);
    app.correlate();
    assert!(!app.graph().unwrap().is_correlated(0, 1));
    app.set_delta(10);
    assert_eq!(app.graph().unwrap().window(), 10);
    assert!(app.graph().unwrap().is_correlated(0, 1));
    app.set_delta(9);
    assert!(!app.graph().unwrap().is_correlated(0, 1));
}

#[test]
fn the_overview_correlates_what_is_loaded_now() {
    let mut app = ChainsawApp::new();
    app.load(sample());
    app.push_overview().unwrap();
    assert_eq!(app.graph().unwrap().node_count(), 3);
    app.back();
    app.load(vec![ChainsawEvent::empty()]);
    assert_eq!(app.graph().unwrap().node_count(), 3);
    app.push_overview().unwrap();
    assert_eq!(app.graph().unwrap().node_count(), 1);
    assert_eq!(app.graph().unwrap().edge_count(), 0);
}
