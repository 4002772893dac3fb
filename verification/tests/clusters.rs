use chainsaw_engine::cluster::clusters;
use chainsaw_engine::correlate::correlate_events;
use chainsaw_engine::event::ChainsawEvent;

fn event(sid: Option<&str>, path: Option<&str>) -> ChainsawEvent {
    let mut ev = ChainsawEvent::empty();
    ev.user_sid = sid.map(|s| s.to_string());
    ev.path = path.map(|s| s.to_string());
    ev
}

#[test]
fn no_events_no_clusters() {
    assert_eq!(clusters(&correlate_events(&[], 0)), Vec::<usize>::new());
}

#[test]
fn lone_events_lead_themselves() {
    let events = vec![event(Some("a"), None), event(Some("b"), None), event(None, None)];
    assert_eq!(clusters(&correlate_events(&events, 0)), vec![0, 1, 2]);
}

#[test]
fn a_cluster_is_led_by_its_first_node() {
    let events = vec![
        event(Some("x"), None),
        event(Some("a"), None),
        event(Some("b"), None),
        event(Some("a"), None),
        event(Some("b"), None),
        event(Some("a"), None),
    ];
    assert_eq!(clusters(&correlate_events(&events, 0)), vec![0, 1, 2, 1, 2, 1]);
}

#[test]
fn clusters_reach_through_other_events() {
    // 0 and 2 share a SID, 2 and 4 share a path, 4 and 1 share a SID:
    // one cluster, although 0 and 1 share nothing.
    let events = vec![
        event(Some("s"), None),
        event(Some("t"), None),
        event(Some("s"), Some("/p")),
        event(Some("u"), Some("/q")),
        event(Some("t"), Some("/p")),
        event(None, Some("/q")),
    ];
    let graph = correlate_events(&events, 0);
    assert!(!graph.is_correlated(0, 1));
    assert_eq!(clusters(&graph), vec![0, 0, 0, 3, 0, 3]);
}

#[test]
fn a_chain_in_time_is_one_cluster() {
    let events: Vec<ChainsawEvent> = (0..6)
        .map(|i| {
            let mut ev = ChainsawEvent::empty();
            ev.timestamp = Some(format!("2024-01-01T00:00:{:02}Z", 10 * (5 - i)));
            ev
        })
        .collect();
    // Neighbours are ten seconds apart: joined with a window of ten, not
    // with a window of nine.
    assert_eq!(clusters(&correlate_events(&events, 10)), vec![0, 0, 0, 0, 0, 0]);
    assert_eq!(clusters(&correlate_events(&events, 9)), vec![0, 1, 2, 3, 4, 5]);
}

#[test]
fn clustering_leaves_the_graph_as_it_was() {
    let events = vec![event(Some("a"), None), event(Some("a"), None)];
    let graph = correlate_events(&events, 0);
    let before = (graph.node_count(), graph.edge_count(), graph.neighbors(0));
    let leaders = clusters(&graph);
    assert_eq!(leaders, vec![0, 0]);
    assert_eq!((graph.node_count(), graph.edge_count(), graph.neighbors(0)), before);
}
