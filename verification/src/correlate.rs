//! The correlation graph: one node for each event, and between two events
//! that are linked one edge in each direction.

use vstd::prelude::*;
use crate::event::{copy_events, views, ChainsawEvent, EventView, Field};
use crate::graph::{
    graph_add_edge, graph_add_node, graph_contains_edge, graph_edge_count, graph_edges,
    graph_new, graph_node_count, graph_nodes, graph_targets, targets_from, EventGraph,
};
use crate::index::{
    group_by_second, group_by_text, groups_match, lemma_linked_cases, linked, lists,
    share_text, text_relation, together, window_relation, within_window,
};
use crate::query::every_position;
use crate::timestamp::instant_of_field;

verus! {

/// The edges are those of the correlation of `events` with window `delta`:
/// between two different events there is an edge exactly if they are
/// linked, and then one only in each direction.
pub open spec fn is_correlation(edges: Seq<(usize, usize)>, events: Seq<EventView>, delta: int) -> bool {
    &&& edges.no_duplicates()
    &&& forall|a: usize, b: usize| #[trigger]
        edges.contains((a, b)) <==> a < events.len() && b < events.len() && a != b && linked(
            events[a as int],
            events[b as int],
            delta,
        )
}

/// Whether the pair `(a, b)` is wired once the members before `i` have been
/// sources for all members, and the member at `i` for those before `j`.
spec fn paired(members: Seq<usize>, i: int, j: int, a: usize, b: usize) -> bool {
    a != b && ((members.take(i).contains(a) && members.contains(b)) || (0 <= i < members.len()
        && members[i] == a && members.take(j).contains(b)))
}

proof fn lemma_take_step(s: Seq<usize>, j: int, x: usize)
    requires
        0 <= j < s.len(),
    ensures
        s.take(j + 1).contains(x) <==> s.take(j).contains(x) || s[j] == x,
{
    let shorter = s.take(j);
    let longer = s.take(j + 1);
    assert(longer =~= shorter.push(s[j]));
    if shorter.contains(x) {
        let k = choose|k: int| 0 <= k < shorter.len() && shorter[k] == x;
        assert(longer[k] == x);
    }
    if s[j] == x {
        assert(longer[j] == x);
    }
    if longer.contains(x) {
        let k = choose|k: int| 0 <= k < longer.len() && longer[k] == x;
        if k < j {
            assert(shorter[k] == x);
        }
    }
}

proof fn lemma_pushed_pair(edges: Seq<(usize, usize)>, e: (usize, usize), x: (usize, usize))
    ensures
        edges.push(e).contains(x) <==> edges.contains(x) || e == x,
        edges.no_duplicates() && !edges.contains(e) ==> edges.push(e).no_duplicates(),
{
    let longer = edges.push(e);
    if edges.contains(x) {
        let k = choose|k: int| 0 <= k < edges.len() && edges[k] == x;
        assert(longer[k] == x);
    }
    if e == x {
        assert(longer[edges.len() as int] == x);
    }
    if longer.contains(x) {
        let k = choose|k: int| 0 <= k < longer.len() && longer[k] == x;
        if k < edges.len() {
            assert(edges[k] == x);
        }
    }
    if edges.no_duplicates() && !edges.contains(e) {
        assert forall|i: int, j: int| 0 <= i < longer.len() && 0 <= j < longer.len() && i != j implies longer[i]
            != longer[j] by {
            if i < edges.len() && j < edges.len() {
            } else if i < edges.len() {
                assert(edges.contains(edges[i]));
            } else {
                assert(edges.contains(edges[j]));
            }
        }
    }
}

/// The edges are the edges of `base` and the pairs that are wired.
spec fn wired(
    edges: Seq<(usize, usize)>,
    base: Seq<(usize, usize)>,
    members: Seq<usize>,
    i: int,
    j: int,
) -> bool {
    &&& edges.no_duplicates()
    &&& forall|a: usize, b: usize| #[trigger]
        edges.contains((a, b)) <==> base.contains((a, b)) || paired(members, i, j, a, b)
}

/// One more target for the source at `i`: the edge to it is there, made
/// just now or before.
proof fn lemma_target_wired(
    before: Seq<(usize, usize)>,
    after: Seq<(usize, usize)>,
    base: Seq<(usize, usize)>,
    members: Seq<usize>,
    i: int,
    j: int,
)
    requires
        0 <= i < members.len(),
        0 <= j < members.len(),
        wired(before, base, members, i, j),
        after == if members[i] != members[j] && !before.contains((members[i], members[j])) {
            before.push((members[i], members[j]))
        } else {
            before
        },
    ensures
        wired(after, base, members, i, j + 1),
{
    let edge = (members[i], members[j]);
    lemma_pushed_pair(before, edge, edge);
    assert forall|a: usize, b: usize| #[trigger]
        after.contains((a, b)) <==> base.contains((a, b)) || paired(members, i, j + 1, a, b) by {
        lemma_take_step(members, j, b);
        lemma_pushed_pair(before, edge, (a, b));
        assert(before.contains((a, b)) <==> base.contains((a, b)) || paired(members, i, j, a, b));
    }
}

/// The source at `i` has had every member for its target: the next source
/// can be taken up.
proof fn lemma_source_wired(
    edges: Seq<(usize, usize)>,
    base: Seq<(usize, usize)>,
    members: Seq<usize>,
    i: int,
)
    requires
        0 <= i < members.len(),
        wired(edges, base, members, i, members.len() as int),
    ensures
        wired(edges, base, members, i + 1, 0),
{
    assert(members.take(members.len() as int) =~= members);
    assert(members.take(0) =~= Seq::<usize>::empty());
    assert forall|a: usize, b: usize| #[trigger]
        edges.contains((a, b)) <==> base.contains((a, b)) || paired(members, i + 1, 0, a, b) by {
        lemma_take_step(members, i, a);
        assert(edges.contains((a, b)) <==> base.contains((a, b)) || paired(
            members,
            i,
            members.len() as int,
            a,
            b,
        ));
    }
}

/// Joins the members of one group: every member gets an edge to every other
/// member, unless the graph has that edge already.
pub(crate) fn connect_members(graph: &mut EventGraph, members: &Vec<usize>)
    requires
        forall|k: int| 0 <= k < members@.len() ==> members@[k] < graph_nodes(*old(graph)).len(),
        graph_edges(*old(graph)).no_duplicates(),
    ensures
        graph_nodes(*final(graph)) == graph_nodes(*old(graph)),
        graph_edges(*final(graph)).no_duplicates(),
        forall|a: usize, b: usize| #[trigger]
            graph_edges(*final(graph)).contains((a, b)) <==> graph_edges(*old(graph)).contains(
                (a, b),
            ) || (a != b && members@.contains(a) && members@.contains(b)),
{
    let ghost base = graph_edges(*graph);
    let ghost nodes = graph_nodes(*graph);
    let mut i: usize = 0;
    proof {
        assert(members@.take(0) =~= Seq::<usize>::empty());
    }
    while i < members.len()
        invariant
            i <= members.len(),
            nodes == graph_nodes(*graph),
            forall|k: int| 0 <= k < members@.len() ==> members@[k] < nodes.len(),
            wired(graph_edges(*graph), base, members@, i as int, 0),
        decreases members.len() - i,
    {
        let source: usize = members[i];
        let mut j: usize = 0;
        while j < members.len()
            invariant
                i < members.len(),
                j <= members.len(),
                source == members@[i as int],
                nodes == graph_nodes(*graph),
                forall|k: int| 0 <= k < members@.len() ==> members@[k] < nodes.len(),
                wired(graph_edges(*graph), base, members@, i as int, j as int),
            decreases members.len() - j,
        {
            let target: usize = members[j];
            let ghost before = graph_edges(*graph);
            if source != target && !graph_contains_edge(graph, source, target) {
                graph_add_edge(graph, source, target);
            }
            proof {
                lemma_target_wired(before, graph_edges(*graph), base, members@, i as int, j as int);
            }
            j += 1;
        }
        proof {
            lemma_source_wired(graph_edges(*graph), base, members@, i as int);
        }
        i += 1;
    }
    proof {
        assert(members@.take(members@.len() as int) =~= members@);
        assert(members@.take(0) =~= Seq::<usize>::empty());
    }
}

proof fn lemma_together_step(groups: Seq<Seq<usize>>, g: int, a: usize, b: usize)
    requires
        0 <= g < groups.len(),
    ensures
        together(groups.take(g + 1), a, b) <==> together(groups.take(g), a, b) || (
        groups[g].contains(a) && groups[g].contains(b)),
{
    let shorter = groups.take(g);
    let longer = groups.take(g + 1);
    if together(shorter, a, b) {
        let h = choose|h: int|
            0 <= h < shorter.len() && #[trigger] shorter[h].contains(a) && shorter[h].contains(b);
        assert(longer[h].contains(a) && longer[h].contains(b));
    }
    if groups[g].contains(a) && groups[g].contains(b) {
        assert(longer[g].contains(a) && longer[g].contains(b));
    }
    if together(longer, a, b) {
        let h = choose|h: int|
            0 <= h < longer.len() && #[trigger] longer[h].contains(a) && longer[h].contains(b);
        if h < g {
            assert(shorter[h].contains(a) && shorter[h].contains(b));
        }
    }
}

/// Joins the members of every group of a list.
pub(crate) fn connect_groups(graph: &mut EventGraph, groups: &Vec<Vec<usize>>)
    requires
        forall|g: int, k: int|
            0 <= g < groups@.len() && 0 <= k < groups@[g]@.len() ==> (#[trigger] groups@[g]@[k])
                < graph_nodes(*old(graph)).len(),
        graph_edges(*old(graph)).no_duplicates(),
    ensures
        graph_nodes(*final(graph)) == graph_nodes(*old(graph)),
        graph_edges(*final(graph)).no_duplicates(),
        forall|a: usize, b: usize| #[trigger]
            graph_edges(*final(graph)).contains((a, b)) <==> graph_edges(*old(graph)).contains(
                (a, b),
            ) || (a != b && together(lists(groups@), a, b)),
{
    let ghost base = graph_edges(*graph);
    let ghost nodes = graph_nodes(*graph);
    let ghost ls = lists(groups@);
    let mut g: usize = 0;
    proof {
        assert forall|a: usize, b: usize| !together(ls.take(0), a, b) by {}
    }
    while g < groups.len()
        invariant
            g <= groups.len(),
            ls == lists(groups@),
            nodes == graph_nodes(*graph),
            forall|h: int, k: int|
                0 <= h < groups@.len() && 0 <= k < groups@[h]@.len() ==> (#[trigger] groups@[h]@[k])
                    < nodes.len(),
            graph_edges(*graph).no_duplicates(),
            forall|a: usize, b: usize| #[trigger]
                graph_edges(*graph).contains((a, b)) <==> base.contains((a, b)) || (a != b
                    && together(ls.take(g as int), a, b)),
        decreases groups.len() - g,
    {
        let ghost edges0 = graph_edges(*graph);
        proof {
            assert forall|k: int| 0 <= k < groups@[g as int]@.len() implies groups@[g as int]@[k]
                < nodes.len() by {
                assert(groups@[g as int]@[k] < nodes.len());
            }
        }
        connect_members(graph, &groups[g]);
        proof {
            let edges1 = graph_edges(*graph);
            assert forall|a: usize, b: usize| #[trigger]
                edges1.contains((a, b)) <==> base.contains((a, b)) || (a != b && together(
                    ls.take(g + 1),
                    a,
                    b,
                )) by {
                lemma_together_step(ls, g as int, a, b);
                assert(ls[g as int] == groups@[g as int]@);
                assert(edges0.contains((a, b)) <==> base.contains((a, b)) || (a != b && together(
                    ls.take(g as int),
                    a,
                    b,
                )));
            }
        }
        g += 1;
    }
    proof {
        assert(ls.take(groups@.len() as int) =~= ls);
    }
}


/// What `targets_from` lists: the targets of the edges that leave `a`, and
/// each once where no edge is there twice.
pub proof fn lemma_targets_from(edges: Seq<(usize, usize)>, a: usize)
    ensures
        forall|b: usize| #[trigger] targets_from(edges, a).contains(b) <==> edges.contains((a, b)),
        edges.no_duplicates() ==> targets_from(edges, a).no_duplicates(),
    decreases edges.len(),
{
    let out = targets_from(edges, a);
    if edges.len() > 0 {
        let rest = edges.drop_last();
        let last = edges.last();
        let inner = targets_from(rest, a);
        lemma_targets_from(rest, a);
        assert(edges =~= rest.push(last));
        assert forall|b: usize| #[trigger] out.contains(b) <==> edges.contains((a, b)) by {
            lemma_pushed_pair(rest, last, (a, b));
            if last.0 == a {
                assert(out =~= seq![last.1] + inner);
                if inner.contains(b) {
                    let k = choose|k: int| 0 <= k < inner.len() && inner[k] == b;
                    assert(out[k + 1] == b);
                }
                if last.1 == b {
                    assert(out[0] == b);
                }
                if out.contains(b) {
                    let k = choose|k: int| 0 <= k < out.len() && out[k] == b;
                    if k > 0 {
                        assert(inner[k - 1] == b);
                    }
                }
            }
        }
        if edges.no_duplicates() {
            assert(rest.no_duplicates());
            if last.0 == a {
                assert(out =~= seq![last.1] + inner);
                if inner.contains(last.1) {
                    assert(rest.contains((a, last.1)));
                    let k = choose|k: int| 0 <= k < rest.len() && rest[k] == last;
                    assert(edges[k] == edges[edges.len() - 1]);
                }
                assert forall|i: int, j: int| 0 <= i < out.len() && 0 <= j < out.len() && i != j implies out[i]
                    != out[j] by {
                    if i > 0 && j > 0 {
                        assert(inner[i - 1] != inner[j - 1]);
                    } else if i == 0 {
                        assert(inner.contains(inner[j - 1]));
                    } else {
                        assert(inner.contains(inner[i - 1]));
                    }
                }
            }
        }
    } else {
        assert forall|b: usize| #[trigger] out.contains(b) <==> edges.contains((a, b)) by {}
    }
}

/// The correlation of a list of events: the events, and a graph with one
/// node for each of them, in their order, whose edges join the events that
/// are linked.
pub struct CorrelationGraph {
    events: Vec<ChainsawEvent>,
    graph: EventGraph,
    delta: i64,
}

impl CorrelationGraph {
    /// The events, by node.
    pub closed spec fn events(&self) -> Seq<ChainsawEvent> {
        self.events@
    }

    /// The window, in seconds, that the time rule was applied with.
    pub closed spec fn delta(&self) -> i64 {
        self.delta
    }

    /// For each node the position of its event.
    pub closed spec fn weights(&self) -> Seq<usize> {
        graph_nodes(self.graph)
    }

    /// The edges as pairs of source and target node, in the order in which
    /// they were made.
    pub closed spec fn links(&self) -> Seq<(usize, usize)> {
        graph_edges(self.graph)
    }

    /// An edge leads from node `a` to node `b`.
    pub open spec fn has_edge(&self, a: usize, b: usize) -> bool {
        self.links().contains((a, b))
    }

    /// The graph is the correlation of its events: node `i` stands for the
    /// event at position `i`, and the edges are those of the correlation.
    pub open spec fn wf(&self) -> bool {
        &&& self.weights() == every_position(self.events().len())
        &&& is_correlation(self.links(), views(self.events()), self.delta() as int)
    }

    #[verifier::type_invariant]
    closed spec fn well_formed(&self) -> bool {
        self.wf()
    }

    /// The number of nodes, which is the number of events.
    pub fn node_count(&self) -> (count: usize)
        ensures
            self.wf(),
            count == self.events().len(),
    {
        proof {
            use_type_invariant(self);
        }
        graph_node_count(&self.graph)
    }

    /// The number of edges; an edge and the one that leads back count as
    /// two.
    pub fn edge_count(&self) -> (count: usize)
        ensures
            self.wf(),
            count == self.links().len(),
    {
        proof {
            use_type_invariant(self);
        }
        graph_edge_count(&self.graph)
    }

    /// The window, in seconds, that the time rule was applied with.
    pub fn window(&self) -> (delta: i64)
        ensures
            delta == self.delta(),
    {
        self.delta
    }

    /// Whether the graph has a node `node`.
    pub fn contains_node(&self, node: usize) -> (found: bool)
        ensures
            self.wf(),
            found == (node < self.events().len()),
    {
        proof {
            use_type_invariant(self);
        }
        node < graph_node_count(&self.graph)
    }

    /// All events, by node.
    pub fn all_events(&self) -> (events: &Vec<ChainsawEvent>)
        ensures
            self.wf(),
            events@ == self.events(),
    {
        proof {
            use_type_invariant(self);
        }
        &self.events
    }

    /// The event that a node stands for; nothing for a node that the graph
    /// does not have.
    pub fn event(&self, node: usize) -> (found: Option<&ChainsawEvent>)
        ensures
            self.wf(),
            match found {
                Some(ev) => node < self.events().len() && *ev == self.events()[node as int],
                None => node >= self.events().len(),
            },
    {
        proof {
            use_type_invariant(self);
        }
        match crate::graph::graph_node_weight(&self.graph, node) {
            Some(position) => {
                assert(position == node);
                Some(&self.events[position])
            },
            None => None,
        }
    }

    /// Whether two nodes are correlated: whether an edge joins them, in
    /// whichever direction.  That is so exactly if they are nodes of the
    /// graph, differ, and their events are linked.
    pub fn is_correlated(&self, a: usize, b: usize) -> (joined: bool)
        ensures
            self.wf(),
            joined == (self.has_edge(a, b) || self.has_edge(b, a)),
            joined == (a < self.events().len() && b < self.events().len() && a != b && linked(
                self.events()[a as int]@,
                self.events()[b as int]@,
                self.delta() as int,
            )),
    {
        proof {
            use_type_invariant(self);
            lemma_edges_symmetric(*self, a, b);
        }
        graph_contains_edge(&self.graph, a, b) || graph_contains_edge(&self.graph, b, a)
    }

    /// The nodes that `node` has an edge to, the one joined last first.
    /// Each correlated node is listed once; a node that the graph does not
    /// have has none.
    pub fn neighbors(&self, node: usize) -> (out: Vec<usize>)
        ensures
            self.wf(),
            out@ == targets_from(self.links(), node),
            out@.no_duplicates(),
            forall|b: usize| #[trigger] out@.contains(b) <==> self.has_edge(node, b),
    {
        proof {
            use_type_invariant(self);
            lemma_targets_from(self.links(), node);
        }
        graph_targets(&self.graph, node)
    }
}

proof fn lemma_together_related(
    groups: Seq<Seq<usize>>,
    n: nat,
    related: spec_fn(usize, usize) -> bool,
    a: usize,
    b: usize,
)
    requires
        groups_match(groups, n, related),
    ensures
        together(groups, a, b) <==> a < n && b < n && related(a, b),
{
    if together(groups, a, b) {
        let g = choose|g: int|
            0 <= g < groups.len() && #[trigger] groups[g].contains(a) && groups[g].contains(b);
        let j = choose|j: int| 0 <= j < groups[g].len() && groups[g][j] == a;
        let k = choose|k: int| 0 <= k < groups[g].len() && groups[g][k] == b;
        assert(groups[g][j] < n && groups[g][k] < n);
        assert(related(groups[g][j], groups[g][k]));
    }
}

proof fn lemma_groups_in_range(groups: Seq<Vec<usize>>, n: nat, related: spec_fn(usize, usize) -> bool)
    requires
        groups_match(lists(groups), n, related),
    ensures
        forall|g: int, k: int|
            0 <= g < groups.len() && 0 <= k < groups[g]@.len() ==> (#[trigger] groups[g]@[k]) < n,
{
    let ls = lists(groups);
    assert forall|g: int, k: int| 0 <= g < groups.len() && 0 <= k < groups[g]@.len() implies (
    #[trigger] groups[g]@[k]) < n by {
        assert(ls[g][k] < n);
    }
}

/// Correlates a list of events.
///
/// The graph has one node for each event, node `i` for the event at
/// position `i`.  The correlation index is built rule by rule: the events
/// grouped by user SID, by path, and by the seconds from their own to
/// `delta` seconds after it.  The members of each group are then joined pair by
/// pair, in both directions, an edge being added only where there is none
/// yet.  An event that carries no key stays alone.
pub fn correlate_events(events: &[ChainsawEvent], delta: i64) -> (out: CorrelationGraph)
    ensures
        out.wf(),
        out.events() == events@,
        out.delta() == delta,
{
    let ghost evs = views(events@);
    let ghost n = events@.len();
    let mut graph = graph_new();
    let mut i: usize = 0;
    while i < events.len()
        invariant
            i <= events.len(),
            graph_nodes(graph) == every_position(i as nat),
            graph_edges(graph) == Seq::<(usize, usize)>::empty(),
        decreases events.len() - i,
    {
        graph_add_node(&mut graph, i);
        i += 1;
        assert(graph_nodes(graph) =~= every_position(i as nat));
    }
    let by_identity = group_by_text(events, Field::UserSid);
    let by_location = group_by_text(events, Field::Path);
    let by_second = group_by_second(events, delta);
    proof {
        lemma_groups_in_range(by_identity@, n, text_relation(evs, Field::UserSid));
        lemma_groups_in_range(by_location@, n, text_relation(evs, Field::Path));
        lemma_groups_in_range(by_second@, n, window_relation(evs, delta as int));
    }
    connect_groups(&mut graph, &by_identity);
    connect_groups(&mut graph, &by_location);
    connect_groups(&mut graph, &by_second);
    proof {
        let edges = graph_edges(graph);
        assert forall|a: usize, b: usize| #[trigger]
            edges.contains((a, b)) <==> a < n && b < n && a != b && linked(
                evs[a as int],
                evs[b as int],
                delta as int,
            ) by {
            lemma_together_related(
                lists(by_identity@),
                n,
                text_relation(evs, Field::UserSid),
                a,
                b,
            );
            lemma_together_related(
                lists(by_location@),
                n,
                text_relation(evs, Field::Path),
                a,
                b,
            );
            lemma_together_related(
                lists(by_second@),
                n,
                window_relation(evs, delta as int),
                a,
                b,
            );
            lemma_linked_cases(evs[a as int], evs[b as int], delta as int);
        }
    }
    let copies = copy_events(events);
    CorrelationGraph { events: copies, graph, delta }
}

/// Correlating one input gives one graph: two correlations of the same
/// events with the same window have the same nodes and the same set of
/// edges, and as many edges.
pub proof fn lemma_correlation_determined(first: CorrelationGraph, second: CorrelationGraph)
    requires
        first.wf(),
        second.wf(),
        views(first.events()) == views(second.events()),
        first.delta() == second.delta(),
    ensures
        first.weights() == second.weights(),
        first.links().to_set() == second.links().to_set(),
        first.links().len() == second.links().len(),
{
    assert(first.events().len() == views(first.events()).len());
    assert(second.events().len() == views(second.events()).len());
    let x = first.links();
    let y = second.links();
    assert forall|e: (usize, usize)| x.to_set().contains(e) <==> y.to_set().contains(e) by {
        assert(x.contains((e.0, e.1)) <==> y.contains((e.0, e.1)));
    }
    assert(x.to_set() =~= y.to_set());
    x.unique_seq_to_set();
    y.unique_seq_to_set();
}

/// No edge leads from a node to itself.
pub proof fn lemma_no_self_edge(graph: CorrelationGraph, a: usize)
    requires
        graph.wf(),
    ensures
        !graph.has_edge(a, a),
{
}

/// Every edge has its counterpart in the other direction.
pub proof fn lemma_edges_symmetric(graph: CorrelationGraph, a: usize, b: usize)
    requires
        graph.wf(),
    ensures
        graph.has_edge(a, b) == graph.has_edge(b, a),
{
    let evs = views(graph.events());
    crate::index::lemma_linked_symmetric(evs[a as int], evs[b as int], graph.delta() as int);
    assert(graph.links().contains((a, b)) <==> a < evs.len() && b < evs.len() && a != b && linked(
        evs[a as int],
        evs[b as int],
        graph.delta() as int,
    ));
    assert(graph.links().contains((b, a)) <==> b < evs.len() && a < evs.len() && b != a && linked(
        evs[b as int],
        evs[a as int],
        graph.delta() as int,
    ));
}

/// The edges from one node to another, counted.
pub open spec fn edges_between(graph: CorrelationGraph, a: usize, b: usize) -> nat {
    graph.links().to_multiset().count((a, b))
}

/// Between any two nodes there is at most one edge in each direction.
pub proof fn lemma_at_most_one_edge(graph: CorrelationGraph, a: usize, b: usize)
    requires
        graph.wf(),
    ensures
        edges_between(graph, a, b) <= 1,
        edges_between(graph, a, b) == 1 <==> graph.has_edge(a, b),
{
    let edges = graph.links();
    edges.lemma_multiset_has_no_duplicates();
    edges.to_multiset_ensures();
    assert(edges.contains((a, b)) <==> edges.to_multiset().count((a, b)) > 0);
    assert(edges.to_multiset().contains((a, b)) <==> edges.to_multiset().count((a, b)) > 0);
}

/// Two events that share both the user SID and the path are joined by one
/// edge in each direction, not by one for each rule.
pub proof fn lemma_shared_keys_one_edge(graph: CorrelationGraph, a: usize, b: usize)
    requires
        graph.wf(),
        a < graph.events().len(),
        b < graph.events().len(),
        a != b,
        share_text(graph.events()[a as int]@, graph.events()[b as int]@, Field::UserSid),
        share_text(graph.events()[a as int]@, graph.events()[b as int]@, Field::Path),
    ensures
        edges_between(graph, a, b) == 1,
        edges_between(graph, b, a) == 1,
{
    let evs = views(graph.events());
    lemma_linked_cases(evs[a as int], evs[b as int], graph.delta() as int);
    assert(graph.links().contains((a, b)));
    lemma_edges_symmetric(graph, a, b);
    lemma_at_most_one_edge(graph, a, b);
    lemma_at_most_one_edge(graph, b, a);
}

/// Between two different events there is an edge exactly if they share a
/// user SID that is not empty, or share a path that is not empty, or have
/// instants whose seconds are at most `delta` apart (with a negative
/// `delta`: instants in the same second).
pub proof fn lemma_edge_cases(graph: CorrelationGraph, a: usize, b: usize)
    requires
        graph.wf(),
        a < graph.events().len(),
        b < graph.events().len(),
        a != b,
    ensures
        graph.has_edge(a, b) <==> share_text(
            graph.events()[a as int]@,
            graph.events()[b as int]@,
            Field::UserSid,
        ) || share_text(graph.events()[a as int]@, graph.events()[b as int]@, Field::Path)
            || within_window(
            graph.events()[a as int]@,
            graph.events()[b as int]@,
            graph.delta() as int,
        ),
{
    let evs = views(graph.events());
    lemma_linked_cases(evs[a as int], evs[b as int], graph.delta() as int);
    assert(graph.links().contains((a, b)) <==> linked(
        evs[a as int],
        evs[b as int],
        graph.delta() as int,
    ));
}

/// Two events whose instants are at most `delta` seconds apart, counted in
/// whole seconds since the epoch, are joined.
pub proof fn lemma_near_in_time_joined(graph: CorrelationGraph, a: usize, b: usize)
    requires
        graph.wf(),
        a < graph.events().len(),
        b < graph.events().len(),
        a != b,
        instant_of_field(graph.events()[a as int]@.timestamp) is Some,
        instant_of_field(graph.events()[b as int]@.timestamp) is Some,
        -graph.delta() <= instant_of_field(graph.events()[a as int]@.timestamp)->0.seconds
            - instant_of_field(graph.events()[b as int]@.timestamp)->0.seconds <= graph.delta(),
    ensures
        graph.has_edge(a, b),
        graph.has_edge(b, a),
{
    let evs = views(graph.events());
    lemma_linked_cases(evs[a as int], evs[b as int], graph.delta() as int);
    assert(graph.links().contains((a, b)));
    lemma_edges_symmetric(graph, a, b);
}

/// Two events that share neither a user SID nor a path, and whose instants
/// are more than `delta` seconds apart, counted in whole seconds since the
/// epoch, are not joined.  Nor are two such events of which one has no
/// instant.  With a negative `delta` the same holds of instants that are
/// not in the same second.
pub proof fn lemma_far_apart_not_joined(graph: CorrelationGraph, a: usize, b: usize)
    requires
        graph.wf(),
        a < graph.events().len(),
        b < graph.events().len(),
        !share_text(graph.events()[a as int]@, graph.events()[b as int]@, Field::UserSid),
        !share_text(graph.events()[a as int]@, graph.events()[b as int]@, Field::Path),
        !within_window(graph.events()[a as int]@, graph.events()[b as int]@, graph.delta() as int),
    ensures
        !graph.has_edge(a, b),
        !graph.has_edge(b, a),
{
    let evs = views(graph.events());
    lemma_linked_cases(evs[a as int], evs[b as int], graph.delta() as int);
    assert(!graph.links().contains((a, b)));
    lemma_edges_symmetric(graph, a, b);
}

} // verus!
