use chainsaw_engine::correlate::{correlate_events, CorrelationGraph};
use chainsaw_engine::event::ChainsawEvent;
use chainsaw_engine::navigation::{AppState, Navigation, NavigationViolation};

fn with_sid(sid: &str) -> ChainsawEvent {
    let mut ev = ChainsawEvent::empty();
    ev.user_sid = Some(sid.to_string());
    ev
}

/// Nodes 0, 1 and 3 are joined to each other; node 2 is alone.
fn graph() -> CorrelationGraph {
    correlate_events(&[with_sid("a"), with_sid("a"), with_sid("b"), with_sid("a")], 0)
}

fn frames(nav: &Navigation) -> Vec<AppState> {
    let mut out = Vec::new();
    let mut level = 0;
    while let Some(frame) = nav.frame(level) {
        out.push(frame);
        level += 1;
    }
    out
}

#[test]
fn starts_at_the_main_view() {
    let nav = Navigation::new();
    assert_eq!(nav.current_view(), AppState::Main);
    assert_eq!(nav.depth(), Some(1));
    assert!(!nav.can_go_back());
    assert_eq!(frames(&nav), vec![AppState::Main]);
    assert_eq!(nav.frame(1), None);
}

#[test]
fn back_at_the_main_view_does_nothing() {
    let mut nav = Navigation::new();
    assert!(!nav.back());
    assert!(!nav.back());
    assert_eq!(frames(&nav), vec![AppState::Main]);
}

#[test]
fn walks_into_the_graph_and_back() {
    let g = graph();
    let mut nav = Navigation::new();
    assert_eq!(nav.push_overview(), Ok(()));
    assert_eq!(nav.current_view(), AppState::CorrelatedEvents);
    assert_eq!(nav.push_detail(&g, 1), Ok(()));
    assert_eq!(nav.current_view(), AppState::EventDetails(1));
    assert_eq!(nav.push_detail(&g, 3), Ok(()));
    assert_eq!(nav.push_detail(&g, 0), Ok(()));
    assert_eq!(nav.push_detail(&g, 1), Ok(()));
    assert_eq!(
        frames(&nav),
        vec![
            AppState::Main,
            AppState::CorrelatedEvents,
            AppState::EventDetails(1),
            AppState::EventDetails(3),
            AppState::EventDetails(0),
            AppState::EventDetails(1),
        ]
    );
    assert_eq!(nav.depth(), Some(6));
    assert!(nav.can_go_back());
    assert!(nav.back());
    assert_eq!(nav.current_view(), AppState::EventDetails(0));
    assert!(nav.back());
    assert!(nav.back());
    assert!(nav.back());
    assert_eq!(nav.current_view(), AppState::CorrelatedEvents);
    assert!(nav.back());
    assert_eq!(nav.current_view(), AppState::Main);
    assert!(!nav.back());
    assert_eq!(frames(&nav), vec![AppState::Main]);
}

#[test]
fn the_overview_offers_every_node() {
    let g = graph();
    for node in 0..4 {
        let mut nav = Navigation::new();
        nav.push_overview().unwrap();
        assert_eq!(nav.push_detail(&g, node), Ok(()));
        assert_eq!(nav.current_view(), AppState::EventDetails(node));
    }
}

#[test]
fn refuses_a_node_that_the_graph_does_not_have() {
    let g = graph();
    let mut nav = Navigation::new();
    nav.push_overview().unwrap();
    assert_eq!(nav.push_detail(&g, 4), Err(NavigationViolation::UnknownNode));
    assert_eq!(nav.push_detail(&g, usize::MAX), Err(NavigationViolation::UnknownNode));
    assert_eq!(frames(&nav), vec![AppState::Main, AppState::CorrelatedEvents]);
    nav.push_detail(&g, 0).unwrap();
    assert_eq!(nav.push_detail(&g, 4), Err(NavigationViolation::UnknownNode));
    assert_eq!(
        frames(&nav),
        vec![AppState::Main, AppState::CorrelatedEvents, AppState::EventDetails(0)]
    );
}

#[test]
fn refuses_a_node_that_is_no_neighbour() {
    let g = graph();
    let mut nav = Navigation::new();
    nav.push_overview().unwrap();
    nav.push_detail(&g, 0).unwrap();
    assert_eq!(nav.push_detail(&g, 2), Err(NavigationViolation::NotAdjacent));
    assert_eq!(nav.push_detail(&g, 0), Err(NavigationViolation::NotAdjacent));
    assert_eq!(nav.current_view(), AppState::EventDetails(0));
    assert_eq!(nav.depth(), Some(3));
    assert!(nav.back());
    nav.push_detail(&g, 2).unwrap();
    for node in 0..4 {
        assert_eq!(nav.push_detail(&g, node), Err(NavigationViolation::NotAdjacent));
    }
    assert_eq!(nav.current_view(), AppState::EventDetails(2));
}

#[test]
fn refuses_steps_that_the_view_does_not_offer() {
    let g = graph();
    let mut nav = Navigation::new();
    assert_eq!(nav.push_detail(&g, 0), Err(NavigationViolation::NotOffered));
    assert_eq!(frames(&nav), vec![AppState::Main]);
    nav.push_overview().unwrap();
    assert_eq!(nav.push_overview(), Err(NavigationViolation::NotOffered));
    assert_eq!(nav.show_search_results(), Err(NavigationViolation::NotOffered));
    nav.push_detail(&g, 0).unwrap();
    assert_eq!(nav.push_overview(), Err(NavigationViolation::NotOffered));
    assert_eq!(nav.show_search_results(), Err(NavigationViolation::NotOffered));
    assert_eq!(
        frames(&nav),
        vec![AppState::Main, AppState::CorrelatedEvents, AppState::EventDetails(0)]
    );
}

#[test]
fn search_results_are_a_view_above_the_main_view() {
    let g = graph();
    let mut nav = Navigation::new();
    assert_eq!(nav.show_search_results(), Ok(()));
    assert_eq!(nav.current_view(), AppState::SearchResults);
    assert_eq!(nav.push_detail(&g, 0), Err(NavigationViolation::NotOffered));
    assert_eq!(nav.push_overview(), Err(NavigationViolation::NotOffered));
    assert_eq!(nav.show_search_results(), Err(NavigationViolation::NotOffered));
    assert!(nav.back());
    assert_eq!(nav.current_view(), AppState::Main);
}

#[test]
fn the_bottom_frame_stays_the_main_view() {
    let g = graph();
    let mut nav = Navigation::new();
    let steps: [u8; 24] = [
        3, 3, 0, 1, 2, 2, 3, 1, 0, 2, 3, 3, 3, 0, 0, 1, 4, 5, 3, 4, 1, 5, 3, 3,
    ];
    for (turn, step) in steps.iter().enumerate() {
        match step {
            0 => {
                let _ = nav.push_overview();
            }
            1 => {
                let _ = nav.push_detail(&g, turn % 5);
            }
            2 => {
                let _ = nav.push_detail(&g, (turn + 1) % 4);
            }
            3 => {
                nav.back();
            }
            4 => {
                let _ = nav.show_search_results();
            }
            _ => {
                let _ = nav.push_detail(&g, 3);
            }
        }
        assert!(nav.depth().unwrap() >= 1);
        assert_eq!(nav.frame(0), Some(AppState::Main));
        assert_eq!(frames(&nav).last(), Some(&nav.current_view()));
    }
}
