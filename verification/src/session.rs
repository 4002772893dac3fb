//! The session: the events that are loaded, the query that narrows them,
//! the correlation graph and the navigation, held in one value that the
//! presentation owns.

use vstd::prelude::*;
use crate::correlate::{correlate_events, CorrelationGraph};
use crate::event::{text_of, views, ChainsawEvent};
use crate::navigation::{
    after, detail_step, plain_step, refusal, rooted, AppState, NavAction, Navigation,
    NavigationViolation,
};
use crate::query::{in_range, labels_seen, search_suggestions, suggestions, unique_types};
use crate::sort::{filtered_sorted_view, shown_positions, SortCriteria};
use crate::timestamp::Timestamp;

verus! {

/// The window of the time rule at the start of a session, in seconds.
pub const DEFAULT_DELTA_SECONDS: i64 = 60;

/// The state of a session.
pub struct ChainsawApp {
    csv_loaded: bool,
    loaded_events: Vec<ChainsawEvent>,
    selected_type: Option<String>,
    sort_criteria: SortCriteria,
    search_query: String,
    unique_types: Vec<String>,
    delta: i64,
    correlated_graph: Option<CorrelationGraph>,
    navigation: Navigation,
}

/// A session as the contracts see it.
pub struct AppView {
    /// Whether events have been loaded.
    pub csv_loaded: bool,
    /// The events that are loaded.
    pub events: Seq<ChainsawEvent>,
    /// The type that the filter selects, if any.
    pub selected_type: Option<Seq<char>>,
    /// The criterion of the sort.
    pub sort_criteria: SortCriteria,
    /// The text of the search.
    pub search_query: Seq<char>,
    /// The detection labels of the loaded events.
    pub unique_types: Seq<Seq<char>>,
    /// The window of the time rule, in seconds.
    pub delta: i64,
    /// The correlation graph, once one was built.
    pub graph: Option<CorrelationGraph>,
    /// The frames of the navigation, the bottom one first.
    pub frames: Seq<AppState>,
}

/// Whether `graph` is the correlation of `events` with window `delta`.
pub open spec fn correlates(graph: CorrelationGraph, events: Seq<ChainsawEvent>, delta: i64) -> bool {
    graph.wf() && graph.events() == events && graph.delta() == delta
}

impl View for ChainsawApp {
    type V = AppView;

    closed spec fn view(&self) -> AppView {
        AppView {
            csv_loaded: self.csv_loaded,
            events: self.loaded_events@,
            selected_type: text_of(self.selected_type),
            sort_criteria: self.sort_criteria,
            search_query: self.search_query@,
            unique_types: self.unique_types.deep_view(),
            delta: self.delta,
            graph: self.correlated_graph,
            frames: self.navigation.frames(),
        }
    }
}

impl Default for ChainsawApp {
    fn default() -> (out: ChainsawApp)
        ensures
            out@ == ChainsawApp::start(),
    {
        ChainsawApp::new()
    }
}

impl ChainsawApp {
    /// A session at its start: nothing loaded, no type selected, the sort
    /// by nearness in time with zero seconds, an empty search, a window of
    /// one minute, no graph, and the main view alone.
    pub open spec fn start() -> AppView {
        AppView {
            csv_loaded: false,
            events: Seq::empty(),
            selected_type: None,
            sort_criteria: SortCriteria::Date(0),
            search_query: Seq::empty(),
            unique_types: Seq::empty(),
            delta: DEFAULT_DELTA_SECONDS,
            graph: None,
            frames: seq![AppState::Main],
        }
    }

    /// A session at its start.
    pub fn new() -> (out: ChainsawApp)
        ensures
            out@ == ChainsawApp::start(),
    {
        let out = ChainsawApp {
            csv_loaded: false,
            loaded_events: Vec::new(),
            selected_type: None,
            sort_criteria: SortCriteria::Date(0),
            search_query: String::new(),
            unique_types: Vec::new(),
            delta: DEFAULT_DELTA_SECONDS,
            correlated_graph: None,
            navigation: Navigation::new(),
        };
        assert(out.unique_types.deep_view() =~= Seq::<Seq<char>>::empty());
        out
    }

    /// Loads a list of events in place of those that are loaded, and
    /// gathers their detection labels.
    pub fn load(&mut self, events: Vec<ChainsawEvent>)
        ensures
            final(self)@ == (AppView {
                csv_loaded: true,
                events: events@,
                unique_types: labels_seen(views(events@)),
                ..old(self)@
            }),
    {
        self.unique_types = unique_types(events.as_slice());
        self.loaded_events = events;
        self.csv_loaded = true;
    }

    /// Selects the type that the filter keeps; `None`, or the empty type,
    /// keeps every event.
    pub fn set_filter(&mut self, selected: Option<String>)
        ensures
            final(self)@ == (AppView { selected_type: text_of(selected), ..old(self)@ }),
    {
        self.selected_type = selected;
    }

    /// Turns "select all" on or off.  On, no type is selected; off, the
    /// empty type is, which still keeps every event until a type is chosen.
    pub fn select_all(&mut self, all: bool)
        ensures
            final(self)@ == (AppView {
                selected_type: if all {
                    None
                } else {
                    Some(Seq::<char>::empty())
                },
                ..old(self)@
            }),
    {
        if all {
            self.selected_type = None;
        } else {
            self.selected_type = Some(String::new());
        }
    }

    /// Whether "select all" is on: whether no type is selected.
    pub fn selects_all(&self) -> (all: bool)
        ensures
            all == (self@.selected_type is None),
    {
        self.selected_type.is_none()
    }

    /// Sets the text of the search.
    pub fn set_search(&mut self, query: String)
        ensures
            final(self)@ == (AppView { search_query: query@, ..old(self)@ }),
    {
        self.search_query = query;
    }

    /// Sets the criterion of the sort.
    pub fn set_sort(&mut self, criteria: SortCriteria)
        ensures
            final(self)@ == (AppView { sort_criteria: criteria, ..old(self)@ }),
    {
        self.sort_criteria = criteria;
    }

    /// Sets the window of the time rule, in seconds.  Where a graph is held
    /// it is replaced by the correlation of the loaded events with the new
    /// window.
    pub fn set_delta(&mut self, delta: i64)
        ensures
            final(self)@.delta == delta,
            old(self)@.graph is Some ==> final(self)@.graph is Some && correlates(
                final(self)@.graph->0,
                old(self)@.events,
                delta,
            ),
            old(self)@.graph is None ==> final(self)@.graph is None,
            final(self)@ == (AppView { delta, graph: final(self)@.graph, ..old(self)@ }),
    {
        self.delta = delta;
        if self.correlated_graph.is_some() {
            self.correlated_graph = Some(correlate_events(self.loaded_events.as_slice(), delta));
        }
    }

    /// Builds the correlation graph of the loaded events with the window of
    /// the session, in place of the graph that is held, if any.
    pub fn correlate(&mut self)
        ensures
            final(self)@.graph is Some,
            correlates(final(self)@.graph->0, old(self)@.events, old(self)@.delta),
            final(self)@ == (AppView { graph: final(self)@.graph, ..old(self)@ }),
    {
        self.correlated_graph = Some(correlate_events(self.loaded_events.as_slice(), self.delta));
    }

    /// The positions of the events to show: those that pass the type filter
    /// and the search, in the order of the sort.  `now` stands for the
    /// instant of every event without a timestamp that parses.
    pub fn filtered_sorted_view(&self, now: Timestamp) -> (out: Vec<usize>)
        ensures
            out@ == shown_positions(
                views(self@.events),
                self@.selected_type,
                self@.search_query,
                self@.sort_criteria,
                now,
            ),
            in_range(out@, self@.events.len()),
    {
        filtered_sorted_view(
            self.loaded_events.as_slice(),
            &self.selected_type,
            self.search_query.as_str(),
            &self.sort_criteria,
            now,
        )
    }

    /// The completions to offer for the text of the search.
    pub fn suggestions(&self) -> (out: Vec<String>)
        ensures
            out.deep_view() == suggestions(views(self@.events), self@.search_query),
    {
        search_suggestions(self.loaded_events.as_slice(), self.search_query.as_str())
    }

    /// Whether events have been loaded.
    pub fn is_loaded(&self) -> (loaded: bool)
        ensures
            loaded == self@.csv_loaded,
    {
        self.csv_loaded
    }

    /// The events that are loaded.
    pub fn events(&self) -> (events: &Vec<ChainsawEvent>)
        ensures
            events@ == self@.events,
    {
        &self.loaded_events
    }

    /// The type that the filter selects, if any.
    pub fn selected_type(&self) -> (selected: &Option<String>)
        ensures
            text_of(*selected) == self@.selected_type,
    {
        &self.selected_type
    }

    /// The criterion of the sort.
    pub fn sort_criteria(&self) -> (criteria: SortCriteria)
        ensures
            criteria == self@.sort_criteria,
    {
        self.sort_criteria
    }

    /// The text of the search.
    pub fn search_query(&self) -> (query: &String)
        ensures
            query@ == self@.search_query,
    {
        &self.search_query
    }

    /// The detection labels of the loaded events, each once, in the order
    /// of first occurrence, as gathered when the events were loaded.
    pub fn known_types(&self) -> (types: &Vec<String>)
        ensures
            types.deep_view() == self@.unique_types,
    {
        &self.unique_types
    }

    /// The window of the time rule, in seconds.
    pub fn delta(&self) -> (delta: i64)
        ensures
            delta == self@.delta,
    {
        self.delta
    }

    /// The correlation graph, once one was built.
    pub fn graph(&self) -> (graph: Option<&CorrelationGraph>)
        ensures
            match graph {
                Some(g) => self@.graph == Some(*g),
                None => self@.graph is None,
            },
    {
        match &self.correlated_graph {
            Some(g) => Some(g),
            None => None,
        }
    }

    /// The view that is shown.
    pub fn current_view(&self) -> (top: AppState)
        ensures
            rooted(self@.frames),
            top == self@.frames.last(),
    {
        self.navigation.current_view()
    }

    /// Whether there is a view to go back to.
    pub fn can_go_back(&self) -> (yes: bool)
        ensures
            yes == (self@.frames.len() > 1),
    {
        self.navigation.can_go_back()
    }

    /// Goes back one view.  At the main view nothing happens.  Returns
    /// whether a frame was popped.
    pub fn back(&mut self) -> (popped: bool)
        ensures
            rooted(final(self)@.frames),
            popped == (old(self)@.frames.len() > 1),
            final(self)@ == (AppView {
                frames: after(old(self)@.frames, plain_step(NavAction::Back)),
                ..old(self)@
            }),
    {
        self.navigation.back()
    }

    /// Opens the results of a search.  Only the main view offers this.
    pub fn show_search_results(&mut self) -> (out: Result<(), NavigationViolation>)
        ensures
            rooted(final(self)@.frames),
            match out {
                Ok(_) => refusal(old(self)@.frames, plain_step(NavAction::ShowSearchResults))
                    is None,
                Err(v) => refusal(old(self)@.frames, plain_step(NavAction::ShowSearchResults))
                    == Some(v),
            },
            final(self)@ == (AppView {
                frames: after(old(self)@.frames, plain_step(NavAction::ShowSearchResults)),
                ..old(self)@
            }),
    {
        self.navigation.show_search_results()
    }

    /// Builds the correlation graph of the loaded events with the window of
    /// the session and opens the list of its nodes.  Only the main view
    /// offers this; from any other view the step is refused and nothing
    /// changes, the graph included.
    pub fn push_overview(&mut self) -> (out: Result<(), NavigationViolation>)
        ensures
            rooted(final(self)@.frames),
            match out {
                Ok(_) => {
                    &&& refusal(old(self)@.frames, plain_step(NavAction::PushOverview)) is None
                    &&& final(self)@.graph is Some
                    &&& correlates(final(self)@.graph->0, old(self)@.events, old(self)@.delta)
                },
                Err(v) => {
                    &&& refusal(old(self)@.frames, plain_step(NavAction::PushOverview)) == Some(v)
                    &&& final(self)@.graph == old(self)@.graph
                },
            },
            final(self)@ == (AppView {
                graph: final(self)@.graph,
                frames: after(old(self)@.frames, plain_step(NavAction::PushOverview)),
                ..old(self)@
            }),
    {
        match self.navigation.current_view() {
            AppState::Main => {
                self.correlated_graph = Some(
                    correlate_events(self.loaded_events.as_slice(), self.delta),
                );
                self.navigation.push_overview()
            },
            _ => Err(NavigationViolation::NotOffered),
        }
    }

    /// Opens the details of a node of the graph that is held.  The list of
    /// nodes offers every node; the details of a node offer the nodes that
    /// it is joined to.  Anything else is refused, and nothing changes.
    pub fn push_detail(&mut self, node: usize) -> (out: Result<(), NavigationViolation>)
        ensures
            rooted(final(self)@.frames),
            match old(self)@.graph {
                Some(graph) => {
                    &&& match out {
                        Ok(_) => refusal(old(self)@.frames, detail_step(graph, node)) is None,
                        Err(v) => refusal(old(self)@.frames, detail_step(graph, node)) == Some(v),
                    }
                    &&& final(self)@ == (AppView {
                        frames: after(old(self)@.frames, detail_step(graph, node)),
                        ..old(self)@
                    })
                },
                None => out == Err::<(), NavigationViolation>(NavigationViolation::NoGraph)
                    && final(self)@ == old(self)@,
            },
    {
        proof {
            self.navigation.lemma_rooted();
        }
        match &self.correlated_graph {
            Some(graph) => self.navigation.push_detail(graph, node),
            None => Err(NavigationViolation::NoGraph),
        }
    }
}

} // verus!
