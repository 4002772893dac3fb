//! The navigation through the views: a stack of frames whose bottom is the
//! main view.  Drilling in pushes a frame, going back pops one, and the
//! bottom frame is never popped.

use vstd::prelude::*;
use crate::correlate::CorrelationGraph;

verus! {

/// A view.
#[derive(Debug, Clone, Copy, PartialEq, Eq, Structural)]
pub enum AppState {
    /// The list of events, with filter, search and sort.
    Main,
    /// The results of a search.
    SearchResults,
    /// The nodes of the correlation graph.
    CorrelatedEvents,
    /// One node of the correlation graph, with its neighbours.
    EventDetails(usize),
}

/// Why a step was refused.  A refused step leaves the navigation as it was.
#[derive(Debug, Clone, Copy, PartialEq, Eq, Structural)]
pub enum NavigationViolation {
    /// No correlation graph has been built.
    NoGraph,
    /// The graph has no such node.
    UnknownNode,
    /// The node is not a neighbour of the node that is shown.
    NotAdjacent,
    /// The view that is shown does not offer the step.
    NotOffered,
}

/// A step that a caller may ask for.
#[derive(Debug, Clone, Copy, PartialEq, Eq, Structural)]
pub enum NavAction {
    /// From the main view to the results of a search.
    ShowSearchResults,
    /// From the main view to the nodes of the correlation graph.
    PushOverview,
    /// To the details of a node.
    PushDetail(usize),
    /// Back to the view before.
    Back,
}

/// A step together with the graph that it met: the number of its nodes and
/// its edges.
pub struct NavStep {
    pub action: NavAction,
    pub nodes: nat,
    pub edges: Seq<(usize, usize)>,
}

/// The stack has a bottom frame, and that is the main view.
pub open spec fn rooted(frames: Seq<AppState>) -> bool {
    frames.len() > 0 && frames[0] == AppState::Main
}

/// Why the details of `node` cannot be opened from the view `top`, if they
/// cannot.  From the list of nodes any node of the graph can be opened;
/// from the details of a node, the nodes that it has an edge to.
pub open spec fn detail_refusal(
    top: AppState,
    nodes: nat,
    edges: Seq<(usize, usize)>,
    node: usize,
) -> Option<NavigationViolation> {
    match top {
        AppState::CorrelatedEvents => if node < nodes {
            None
        } else {
            Some(NavigationViolation::UnknownNode)
        },
        AppState::EventDetails(from) => if node >= nodes {
            Some(NavigationViolation::UnknownNode)
        } else if edges.contains((from, node)) {
            None
        } else {
            Some(NavigationViolation::NotAdjacent)
        },
        _ => Some(NavigationViolation::NotOffered),
    }
}

/// Why a step is refused, if it is.
pub open spec fn refusal(frames: Seq<AppState>, step: NavStep) -> Option<NavigationViolation> {
    match step.action {
        NavAction::ShowSearchResults | NavAction::PushOverview => if frames.last()
            == AppState::Main {
            None
        } else {
            Some(NavigationViolation::NotOffered)
        },
        NavAction::PushDetail(node) => detail_refusal(frames.last(), step.nodes, step.edges, node),
        NavAction::Back => None,
    }
}

/// The stack after a step.  A refused step changes nothing, and so does
/// going back from the bottom frame.
pub open spec fn after(frames: Seq<AppState>, step: NavStep) -> Seq<AppState> {
    if refusal(frames, step) is Some {
        frames
    } else {
        match step.action {
            NavAction::ShowSearchResults => frames.push(AppState::SearchResults),
            NavAction::PushOverview => frames.push(AppState::CorrelatedEvents),
            NavAction::PushDetail(node) => frames.push(AppState::EventDetails(node)),
            NavAction::Back => if frames.len() > 1 {
                frames.drop_last()
            } else {
                frames
            },
        }
    }
}

/// The stack after a run of steps.
pub open spec fn after_all(frames: Seq<AppState>, steps: Seq<NavStep>) -> Seq<AppState>
    decreases steps.len(),
{
    if steps.len() == 0 {
        frames
    } else {
        after(after_all(frames, steps.drop_last()), steps.last())
    }
}

/// A step keeps the bottom frame.
pub proof fn lemma_step_keeps_root(frames: Seq<AppState>, step: NavStep)
    requires
        rooted(frames),
    ensures
        rooted(after(frames, step)),
{
}

/// After any run of steps from the start the stack is not empty, and its
/// bottom frame is the main view.
pub proof fn lemma_navigation_rooted(steps: Seq<NavStep>)
    ensures
        rooted(after_all(seq![AppState::Main], steps)),
    decreases steps.len(),
{
    if steps.len() > 0 {
        lemma_navigation_rooted(steps.drop_last());
        lemma_step_keeps_root(after_all(seq![AppState::Main], steps.drop_last()), steps.last());
    }
}

/// The step that opens the details of `node` in front of `graph`.
pub open spec fn detail_step(graph: CorrelationGraph, node: usize) -> NavStep {
    NavStep {
        action: NavAction::PushDetail(node),
        nodes: graph.events().len(),
        edges: graph.links(),
    }
}

/// A step that does not look at a graph.
pub open spec fn plain_step(action: NavAction) -> NavStep {
    NavStep { action, nodes: 0, edges: Seq::empty() }
}

/// The stack of views.  The bottom frame is the main view and is not
/// stored: only the frames above it are.
pub struct Navigation {
    above: Vec<AppState>,
}

impl Navigation {
    /// The frames, the bottom one first.
    pub closed spec fn frames(&self) -> Seq<AppState> {
        seq![AppState::Main] + self.above@
    }

    /// The stack is never empty, and its bottom frame is the main view.
    pub proof fn lemma_rooted(&self)
        ensures
            rooted(self.frames()),
    {
    }

    /// The navigation at the start: the main view alone.
    pub fn new() -> (out: Navigation)
        ensures
            out.frames() == seq![AppState::Main],
    {
        let out = Navigation { above: Vec::new() };
        assert(out.frames() =~= seq![AppState::Main]);
        out
    }

    /// The view that is shown: the top frame.
    pub fn current_view(&self) -> (top: AppState)
        ensures
            rooted(self.frames()),
            top == self.frames().last(),
    {
        if self.above.len() == 0 {
            AppState::Main
        } else {
            self.above[self.above.len() - 1]
        }
    }

    /// The number of frames, which is at least one.
    pub fn depth(&self) -> (depth: Option<usize>)
        ensures
            rooted(self.frames()),
            match depth {
                Some(d) => d == self.frames().len(),
                None => self.frames().len() > usize::MAX,
            },
    {
        self.above.len().checked_add(1)
    }

    /// The frame at `level` above the bottom, if there is one.
    pub fn frame(&self, level: usize) -> (out: Option<AppState>)
        ensures
            out == if level < self.frames().len() {
                Some(self.frames()[level as int])
            } else {
                None
            },
    {
        if level == 0 {
            Some(AppState::Main)
        } else if level - 1 < self.above.len() {
            Some(self.above[level - 1])
        } else {
            None
        }
    }

    /// Whether there is a view to go back to.
    pub fn can_go_back(&self) -> (yes: bool)
        ensures
            yes == (self.frames().len() > 1),
    {
        self.above.len() > 0
    }

    /// Goes back one view.  At the main view nothing happens.  Returns
    /// whether a frame was popped.
    pub fn back(&mut self) -> (popped: bool)
        ensures
            rooted(final(self).frames()),
            final(self).frames() == after(old(self).frames(), plain_step(NavAction::Back)),
            popped == (old(self).frames().len() > 1),
    {
        if self.above.len() > 0 {
            self.above.pop();
            assert(self.frames() =~= old(self).frames().drop_last());
            true
        } else {
            false
        }
    }

    /// Pushes a frame on a stack whose top is the main view, and refuses
    /// on any other.
    fn push_from_main(&mut self, frame: AppState) -> (out: Result<(), NavigationViolation>)
        ensures
            rooted(final(self).frames()),
            rooted(old(self).frames()),
            match out {
                Ok(_) => old(self).frames().last() == AppState::Main && final(self).frames() == old(
                    self,
                ).frames().push(frame),
                Err(v) => old(self).frames().last() != AppState::Main && final(self).frames()
                    == old(self).frames() && v == NavigationViolation::NotOffered,
            },
    {
        match self.current_view() {
            AppState::Main => {
                self.above.push(frame);
                assert(self.frames() =~= old(self).frames().push(frame));
                Ok(())
            },
            _ => Err(NavigationViolation::NotOffered),
        }
    }

    /// Opens the results of a search.  Only the main view offers this.
    pub fn show_search_results(&mut self) -> (out: Result<(), NavigationViolation>)
        ensures
            rooted(final(self).frames()),
            final(self).frames() == after(
                old(self).frames(),
                plain_step(NavAction::ShowSearchResults),
            ),
            match out {
                Ok(_) => refusal(old(self).frames(), plain_step(NavAction::ShowSearchResults)) is None,
                Err(v) => refusal(old(self).frames(), plain_step(NavAction::ShowSearchResults)) == Some(v),
            },
    {
        self.push_from_main(AppState::SearchResults)
    }

    /// Opens the list of the nodes of the correlation graph.  Only the main
    /// view offers this.
    pub fn push_overview(&mut self) -> (out: Result<(), NavigationViolation>)
        ensures
            rooted(final(self).frames()),
            final(self).frames() == after(old(self).frames(), plain_step(NavAction::PushOverview)),
            match out {
                Ok(_) => refusal(old(self).frames(), plain_step(NavAction::PushOverview)) is None,
                Err(v) => refusal(old(self).frames(), plain_step(NavAction::PushOverview)) == Some(v),
            },
    {
        self.push_from_main(AppState::CorrelatedEvents)
    }

    /// Opens the details of a node.  The list of nodes offers every node of
    /// the graph; the details of a node offer the nodes that it is joined
    /// to.  Anything else is refused, and the navigation stays as it was.
    pub fn push_detail(&mut self, graph: &CorrelationGraph, node: usize) -> (out: Result<
        (),
        NavigationViolation,
    >)
        ensures
            rooted(final(self).frames()),
            final(self).frames() == after(old(self).frames(), detail_step(*graph, node)),
            match out {
                Ok(_) => refusal(old(self).frames(), detail_step(*graph, node)) is None,
                Err(v) => refusal(old(self).frames(), detail_step(*graph, node)) == Some(v),
            },
    {
        let top: AppState = self.current_view();
        let known: bool = graph.contains_node(node);
        match top {
            AppState::CorrelatedEvents => {
                if known {
                    self.above.push(AppState::EventDetails(node));
                    assert(self.frames() =~= old(self).frames().push(AppState::EventDetails(node)));
                    Ok(())
                } else {
                    Err(NavigationViolation::UnknownNode)
                }
            },
            AppState::EventDetails(from) => {
                if !known {
                    Err(NavigationViolation::UnknownNode)
                } else {
                    let joined: bool = graph.is_correlated(from, node);
                    proof {
                        crate::correlate::lemma_edges_symmetric(*graph, from, node);
                    }
                    if joined {
                        self.above.push(AppState::EventDetails(node));
                        assert(self.frames() =~= old(self).frames().push(
                            AppState::EventDetails(node),
                        ));
                        Ok(())
                    } else {
                        Err(NavigationViolation::NotAdjacent)
                    }
                }
            },
            _ => Err(NavigationViolation::NotOffered),
        }
    }
}

} // verus!
