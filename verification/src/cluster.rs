//! Clusters of the correlation graph: the sets of events that are joined to
//! each other directly or through other events.  A cluster is named by its
//! leader, the node with the smallest position in it.  Since every edge has
//! its counterpart in the other direction, the clusters are the strongly
//! connected components of the graph.

use vstd::prelude::*;
use crate::correlate::{lemma_edges_symmetric, CorrelationGraph};
use crate::event::views;

verus! {

/// An edge leads from the node at position `i` of `walk` to the next.
pub open spec fn steps(edges: Seq<(usize, usize)>, walk: Seq<usize>, i: int) -> bool {
    edges.contains((walk[i], walk[i + 1]))
}

/// A walk along the edges: a run of nodes, each joined to the next by an
/// edge.  A single node is a walk.
pub open spec fn is_walk(edges: Seq<(usize, usize)>, walk: Seq<usize>) -> bool {
    &&& walk.len() > 0
    &&& forall|i: int| 0 <= i < walk.len() - 1 ==> #[trigger] steps(edges, walk, i)
}

/// Some walk leads from `a` to `b`.
pub open spec fn reaches(edges: Seq<(usize, usize)>, a: usize, b: usize) -> bool {
    exists|walk: Seq<usize>| #[trigger] is_walk(edges, walk) && walk[0] == a && walk.last() == b
}

/// `leader` is the leader of the cluster of `v`: it reaches `v`, and no
/// node with a smaller position does.
pub open spec fn leads(edges: Seq<(usize, usize)>, leader: usize, v: usize) -> bool {
    &&& reaches(edges, leader, v)
    &&& forall|u: usize| #[trigger] reaches(edges, u, v) ==> leader <= u
}

proof fn lemma_reaches_itself(edges: Seq<(usize, usize)>, a: usize)
    ensures
        reaches(edges, a, a),
{
    let walk = seq![a];
    assert(is_walk(edges, walk) && walk[0] == a && walk.last() == a);
}

proof fn lemma_reaches_onward(edges: Seq<(usize, usize)>, a: usize, b: usize, c: usize)
    requires
        reaches(edges, a, b),
        edges.contains((b, c)),
    ensures
        reaches(edges, a, c),
{
    let walk = choose|walk: Seq<usize>| #[trigger]
        is_walk(edges, walk) && walk[0] == a && walk.last() == b;
    let longer = walk.push(c);
    assert forall|i: int| 0 <= i < longer.len() - 1 implies #[trigger] steps(
        edges,
        longer,
        i,
    ) by {
        if i < walk.len() - 1 {
            assert(steps(edges, walk, i));
        }
    }
    assert(is_walk(edges, longer) && longer[0] == a && longer.last() == c);
}

/// Walks can be put one behind the other.
pub proof fn lemma_reaches_transitive(edges: Seq<(usize, usize)>, a: usize, b: usize, c: usize)
    requires
        reaches(edges, a, b),
        reaches(edges, b, c),
    ensures
        reaches(edges, a, c),
{
    let first = choose|walk: Seq<usize>| #[trigger]
        is_walk(edges, walk) && walk[0] == a && walk.last() == b;
    let second = choose|walk: Seq<usize>| #[trigger]
        is_walk(edges, walk) && walk[0] == b && walk.last() == c;
    let whole = first + second.skip(1);
    assert forall|i: int| 0 <= i < whole.len() - 1 implies #[trigger] steps(edges, whole, i) by {
        if i < first.len() - 1 {
            assert(steps(edges, first, i));
        } else {
            assert(steps(edges, second, i - (first.len() - 1)));
        }
    }
    assert(is_walk(edges, whole) && whole[0] == a && whole.last() == c);
}

/// Where every edge has its counterpart, a walk can be gone backwards.
pub proof fn lemma_reaches_symmetric(edges: Seq<(usize, usize)>, a: usize, b: usize)
    requires
        forall|x: usize, y: usize| #[trigger] edges.contains((x, y)) ==> edges.contains((y, x)),
        reaches(edges, a, b),
    ensures
        reaches(edges, b, a),
{
    let walk = choose|walk: Seq<usize>| #[trigger]
        is_walk(edges, walk) && walk[0] == a && walk.last() == b;
    let back = Seq::new(walk.len(), |i: int| walk[walk.len() - 1 - i]);
    assert forall|i: int| 0 <= i < back.len() - 1 implies #[trigger] steps(edges, back, i) by {
        assert(steps(edges, walk, walk.len() - 2 - i));
    }
    assert(is_walk(edges, back) && back[0] == b && back.last() == a);
}

/// The leaders name the clusters: two nodes have the same leader exactly if
/// a walk along the edges leads from one to the other.
pub proof fn lemma_leaders_name_clusters(
    graph: CorrelationGraph,
    leaders: Seq<usize>,
    a: usize,
    b: usize,
)
    requires
        graph.wf(),
        leaders.len() == graph.events().len(),
        forall|v: int| 0 <= v < leaders.len() ==> leads(graph.links(), #[trigger] leaders[v], v as usize),
        a < leaders.len(),
        b < leaders.len(),
    ensures
        leaders[a as int] == leaders[b as int] <==> reaches(graph.links(), a, b),
{
    let edges = graph.links();
    assert forall|x: usize, y: usize| #[trigger] edges.contains((x, y)) implies edges.contains(
        (y, x),
    ) by {
        lemma_edges_symmetric(graph, x, y);
    }
    assert(leads(edges, leaders[a as int], a));
    assert(leads(edges, leaders[b as int], b));
    if reaches(edges, a, b) {
        lemma_reaches_symmetric(edges, a, b);
        lemma_reaches_transitive(edges, leaders[a as int], a, b);
        lemma_reaches_transitive(edges, leaders[b as int], b, a);
    }
    if leaders[a as int] == leaders[b as int] {
        lemma_reaches_symmetric(edges, leaders[a as int], a);
        lemma_reaches_transitive(edges, a, leaders[a as int], b);
    }
}

/// The labels of a search in progress: which nodes are seen, and the
/// leader of each.
struct Labels {
    seen: Seq<bool>,
    leader: Seq<usize>,
}

impl Labels {
    /// The labels with `w` seen and led by `root`.
    spec fn with(self, w: int, root: usize) -> Labels {
        Labels { seen: self.seen.update(w, true), leader: self.leader.update(w, root) }
    }

    /// `v` is seen and led by `root`.
    spec fn joined(self, v: int, root: int) -> bool {
        0 <= v < self.seen.len() && self.seen[v] && self.leader[v] == root
    }

    /// Every edge that leaves `v` leads to a node that is seen and has the
    /// leader of `v`.
    spec fn settled(self, edges: Seq<(usize, usize)>, v: int) -> bool {
        forall|w: usize| #[trigger]
            edges.contains((v as usize, w)) ==> self.joined(w as int, self.leader[v] as int)
    }

    /// Every node that is seen has a leader that is at most `top`, is not
    /// behind the node, and reaches it; and every node before `top` is seen.
    spec fn led(self, edges: Seq<(usize, usize)>, n: int, top: int) -> bool {
        &&& self.seen.len() == n
        &&& self.leader.len() == n
        &&& forall|v: int|
            0 <= v < n && #[trigger] self.seen[v] ==> self.leader[v] <= top && self.leader[v] <= v
                && reaches(edges, self.leader[v], v as usize)
        &&& forall|v: int| 0 <= v < top && v < n ==> #[trigger] self.seen[v]
    }

    /// The state between two roots: all nodes that are seen are settled.
    #[verifier::opaque]
    spec fn at_rest(self, edges: Seq<(usize, usize)>, n: int, root: int) -> bool {
        &&& self.led(edges, n, root - 1)
        &&& forall|v: int| 0 <= v < root && v < n ==> #[trigger] self.seen[v]
        &&& forall|v: int| 0 <= v < n && self.seen[v] ==> #[trigger] self.settled(edges, v)
    }

    /// The state while the cluster of `root` is gathered: the nodes on the
    /// stack and the node in hand are seen and led by `root`, and every
    /// other node that is seen is settled.
    #[verifier::opaque]
    spec fn gathering(
        self,
        edges: Seq<(usize, usize)>,
        n: int,
        root: int,
        stack: Seq<usize>,
        hand: Option<usize>,
    ) -> bool {
        &&& 0 <= root < n
        &&& self.led(edges, n, root)
        &&& self.joined(root, root)
        &&& forall|k: int| 0 <= k < stack.len() ==> self.joined(#[trigger] stack[k] as int, root)
        &&& hand matches Some(v) ==> self.joined(v as int, root)
        &&& forall|x: int|
            0 <= x < n && self.seen[x] && !(self.leader[x] == root && (stack.contains(x as usize)
                || hand == Some(x as usize))) ==> #[trigger] self.settled(edges, x)
    }
}

proof fn lemma_fresh(labels: Labels, edges: Seq<(usize, usize)>, n: int)
    requires
        labels.seen.len() == n,
        labels.leader.len() == n,
        forall|v: int| 0 <= v < n ==> !labels.seen[v],
    ensures
        labels.at_rest(edges, n, 0),
{
    reveal(Labels::at_rest);
}

proof fn lemma_settled_stays(labels: Labels, edges: Seq<(usize, usize)>, x: int, w: int, root: usize)
    requires
        labels.seen.len() == labels.leader.len(),
        0 <= x < labels.seen.len(),
        0 <= w < labels.seen.len(),
        labels.seen[x],
        !labels.seen[w],
        labels.settled(edges, x),
    ensures
        labels.with(w, root).settled(edges, x),
{
    let after = labels.with(w, root);
    assert forall|y: usize| #[trigger] edges.contains((x as usize, y)) implies after.joined(
        y as int,
        after.leader[x] as int,
    ) by {
        assert(labels.joined(y as int, labels.leader[x] as int));
    }
}

proof fn lemma_begin(labels: Labels, edges: Seq<(usize, usize)>, n: int, root: usize)
    requires
        root < n,
        labels.at_rest(edges, n, root as int),
        !labels.seen[root as int],
    ensures
        labels.with(root as int, root).gathering(edges, n, root as int, seq![root], None),
{
    reveal(Labels::at_rest);
    reveal(Labels::gathering);
    let after = labels.with(root as int, root);
    let stack = seq![root];
    lemma_reaches_itself(edges, root);
    assert forall|v: int| 0 <= v < n && #[trigger] after.seen[v] implies after.leader[v] <= root
        && after.leader[v] <= v && reaches(edges, after.leader[v], v as usize) by {
        if v != root {
            assert(labels.seen[v]);
        }
    }
    assert forall|x: int|
        0 <= x < n && after.seen[x] && !(after.leader[x] == root && (stack.contains(x as usize)
            || None::<usize> == Some(x as usize))) implies #[trigger] after.settled(edges, x) by {
        if x == root {
            assert(stack[0] == root);
        } else {
            assert(labels.seen[x]);
            assert(labels.settled(edges, x));
            lemma_settled_stays(labels, edges, x, root as int, root);
        }
    }
}

proof fn lemma_take(
    labels: Labels,
    edges: Seq<(usize, usize)>,
    n: int,
    root: int,
    stack: Seq<usize>,
)
    requires
        stack.len() > 0,
        labels.gathering(edges, n, root, stack, None),
    ensures
        labels.gathering(edges, n, root, stack.drop_last(), Some(stack.last())),
        labels.joined(stack.last() as int, root),
        labels.seen.len() == n,
        labels.leader.len() == n,
        0 <= root < n,
{
    reveal(Labels::gathering);
    let rest = stack.drop_last();
    let v = stack.last();
    assert(labels.joined(stack[stack.len() - 1] as int, root));
    assert forall|k: int| 0 <= k < rest.len() implies labels.joined(#[trigger] rest[k] as int, root) by {
        assert(rest[k] == stack[k]);
    }
    assert forall|x: int|
        0 <= x < n && labels.seen[x] && !(labels.leader[x] == root && (rest.contains(x as usize)
            || Some(v) == Some(x as usize))) implies #[trigger] labels.settled(edges, x) by {
        if stack.contains(x as usize) {
            let k = choose|k: int| 0 <= k < stack.len() && stack[k] == x as usize;
            if k < rest.len() {
                assert(rest[k] == x as usize);
            }
        }
    }
}

proof fn lemma_discover(
    labels: Labels,
    edges: Seq<(usize, usize)>,
    n: int,
    root: usize,
    stack: Seq<usize>,
    v: usize,
    w: usize,
)
    requires
        labels.gathering(edges, n, root as int, stack, Some(v)),
        edges.contains((v, w)),
        w < n,
        !labels.seen[w as int],
    ensures
        labels.with(w as int, root).gathering(edges, n, root as int, stack.push(w), Some(v)),
{
    reveal(Labels::gathering);
    let after = labels.with(w as int, root);
    let longer = stack.push(w);
    lemma_reaches_onward(edges, root, v, w);
    assert(root <= w) by {
        if w < root {
            assert(labels.seen[w as int]);
        }
    }
    assert forall|x: int| 0 <= x < n && #[trigger] after.seen[x] implies after.leader[x] <= root
        && after.leader[x] <= x && reaches(edges, after.leader[x], x as usize) by {
        if x != w {
            assert(labels.seen[x]);
        }
    }
    assert forall|x: int| 0 <= x < root && x < n implies #[trigger] after.seen[x] by {
        assert(labels.seen[x]);
    }
    assert forall|k: int| 0 <= k < longer.len() implies after.joined(#[trigger] longer[k] as int, root as int) by {
        if k < stack.len() {
            assert(labels.joined(stack[k] as int, root as int));
        }
    }
    assert forall|x: int|
        0 <= x < n && after.seen[x] && !(after.leader[x] == root && (longer.contains(x as usize)
            || Some(v) == Some(x as usize))) implies #[trigger] after.settled(edges, x) by {
        if x == w {
            assert(longer[stack.len() as int] == w);
        } else {
            assert(labels.seen[x]);
            if stack.contains(x as usize) {
                let k = choose|k: int| 0 <= k < stack.len() && stack[k] == x as usize;
                assert(longer[k] == x as usize);
            }
            assert(labels.settled(edges, x));
            lemma_settled_stays(labels, edges, x, w as int, root);
        }
    }
}

proof fn lemma_known(
    labels: Labels,
    edges: Seq<(usize, usize)>,
    n: int,
    root: int,
    stack: Seq<usize>,
    v: usize,
    w: usize,
)
    requires
        labels.gathering(edges, n, root, stack, Some(v)),
        edges.contains((w, v)),
        w < n,
        labels.seen[w as int],
    ensures
        labels.joined(w as int, root),
{
    reveal(Labels::gathering);
    if labels.leader[w as int] != root {
        assert(labels.settled(edges, w as int));
        assert(labels.joined(v as int, labels.leader[w as int] as int));
    }
}

proof fn lemma_put_down(
    labels: Labels,
    edges: Seq<(usize, usize)>,
    n: int,
    root: int,
    stack: Seq<usize>,
    v: usize,
)
    requires
        labels.gathering(edges, n, root, stack, Some(v)),
        forall|w: usize| #[trigger] edges.contains((v, w)) ==> labels.joined(w as int, root),
    ensures
        labels.gathering(edges, n, root, stack, None),
{
    reveal(Labels::gathering);
    assert(labels.settled(edges, v as int));
}

proof fn lemma_end(labels: Labels, edges: Seq<(usize, usize)>, n: int, root: int)
    requires
        labels.gathering(edges, n, root, Seq::empty(), None),
    ensures
        labels.at_rest(edges, n, root + 1),
{
    reveal(Labels::at_rest);
    reveal(Labels::gathering);
    let stack = Seq::<usize>::empty();
    assert forall|v: int| 0 <= v < n && labels.seen[v] implies #[trigger] labels.settled(
        edges,
        v,
    ) by {
        assert(!stack.contains(v as usize));
    }
    assert forall|v: int| 0 <= v < root + 1 && v < n implies #[trigger] labels.seen[v] by {
        if v == root {
            assert(labels.joined(root, root));
        }
    }
}

proof fn lemma_skip(labels: Labels, edges: Seq<(usize, usize)>, n: int, root: int)
    requires
        0 <= root < n,
        labels.at_rest(edges, n, root),
        labels.seen[root],
    ensures
        labels.at_rest(edges, n, root + 1),
{
    reveal(Labels::at_rest);
}

proof fn lemma_rest(labels: Labels, edges: Seq<(usize, usize)>, n: int, v: int)
    requires
        labels.at_rest(edges, n, n),
        0 <= v < n,
    ensures
        labels.seen.len() == n,
        labels.leader.len() == n,
        labels.seen[v],
        labels.leader[v] <= v,
        reaches(edges, labels.leader[v], v as usize),
        labels.settled(edges, v),
{
    reveal(Labels::at_rest);
}

proof fn lemma_walk_keeps_leader(
    labels: Labels,
    edges: Seq<(usize, usize)>,
    n: int,
    walk: Seq<usize>,
    i: int,
)
    requires
        labels.at_rest(edges, n, n),
        is_walk(edges, walk),
        0 <= i < walk.len(),
        walk[0] < n,
    ensures
        walk[i] < n,
        labels.leader[walk[i] as int] == labels.leader[walk[0] as int],
    decreases i,
{
    if i > 0 {
        lemma_walk_keeps_leader(labels, edges, n, walk, i - 1);
        let v = walk[i - 1];
        lemma_rest(labels, edges, n, v as int);
        assert(steps(edges, walk, i - 1));
        assert(labels.joined(walk[i] as int, labels.leader[v as int] as int));
    }
}

proof fn lemma_all_led(labels: Labels, edges: Seq<(usize, usize)>, n: int)
    requires
        n <= usize::MAX,
        labels.at_rest(edges, n, n),
        labels.leader.len() == n,
        forall|a: usize, b: usize| #[trigger] edges.contains((a, b)) ==> a < n,
    ensures
        forall|v: int|
            0 <= v < n ==> leads(edges, #[trigger] labels.leader[v], v as usize),
{
    assert forall|v: int| 0 <= v < n implies leads(
        edges,
        #[trigger] labels.leader[v],
        v as usize,
    ) by {
        lemma_rest(labels, edges, n, v);
        assert forall|u: usize| #[trigger] reaches(edges, u, v as usize) implies labels.leader[v]
            <= u by {
            let walk = choose|walk: Seq<usize>| #[trigger]
                is_walk(edges, walk) && walk[0] == u && walk.last() == v as usize;
            if walk.len() > 1 {
                assert(steps(edges, walk, 0));
            }
            lemma_walk_from_behind(labels, edges, n, walk);
        }
    }
}

proof fn lemma_walk_from_behind(
    labels: Labels,
    edges: Seq<(usize, usize)>,
    n: int,
    walk: Seq<usize>,
)
    requires
        labels.at_rest(edges, n, n),
        is_walk(edges, walk),
        walk.last() < n,
        walk.len() > 1 ==> walk[0] < n,
    ensures
        labels.leader[walk.last() as int] <= walk[0],
{
    lemma_walk_keeps_leader(labels, edges, n, walk, walk.len() - 1);
    lemma_rest(labels, edges, n, walk[0] as int);
}

/// The leader of the cluster of every node: the first node from which a
/// walk along the edges leads to it.  A node that is joined to no other is
/// its own leader.  The graph is not changed.
pub fn clusters(graph: &CorrelationGraph) -> (leaders: Vec<usize>)
    ensures
        leaders@.len() == graph.events().len(),
        forall|v: int|
            0 <= v < leaders@.len() ==> leads(graph.links(), #[trigger] leaders@[v], v as usize),
{
    let n: usize = graph.node_count();
    let ghost edges = graph.links();
    proof {
        assert(views(graph.events()).len() == n);
    }
    let mut seen: Vec<bool> = Vec::new();
    let mut leader: Vec<usize> = Vec::new();
    let mut i: usize = 0;
    while i < n
        invariant
            i <= n,
            seen@.len() == i,
            leader@.len() == i,
            forall|v: int| 0 <= v < i ==> !seen@[v],
        decreases n - i,
    {
        seen.push(false);
        leader.push(i);
        i += 1;
    }
    let ghost mut unseen: Set<int> = vstd::set_lib::set_int_range(0, n as int);
    proof {
        vstd::set_lib::lemma_int_range(0, n as int);
        lemma_fresh(Labels { seen: seen@, leader: leader@ }, edges, n as int);
    }
    let mut root: usize = 0;
    while root < n
        invariant
            root <= n,
            n == views(graph.events()).len(),
            graph.wf(),
            edges == graph.links(),
            seen@.len() == n,
            leader@.len() == n,
            (Labels { seen: seen@, leader: leader@ }).at_rest(edges, n as int, root as int),
            unseen.finite(),
            forall|v: int| unseen.contains(v) <==> 0 <= v < n && !seen@[v],
        decreases n - root,
    {
        if seen[root] {
            proof {
                lemma_skip(Labels { seen: seen@, leader: leader@ }, edges, n as int, root as int);
            }
        } else {
            let mut stack: Vec<usize> = Vec::new();
            proof {
                lemma_begin(Labels { seen: seen@, leader: leader@ }, edges, n as int, root);
                unseen = unseen.remove(root as int);
            }
            seen.set(root, true);
            leader.set(root, root);
            stack.push(root);
            assert(stack@ =~= seq![root]);
            while stack.len() > 0
                invariant
                    root < n,
                    n == views(graph.events()).len(),
                    graph.wf(),
                    edges == graph.links(),
                    seen@.len() == n,
                    leader@.len() == n,
                    (Labels { seen: seen@, leader: leader@ }).gathering(
                        edges,
                        n as int,
                        root as int,
                        stack@,
                        None,
                    ),
                    unseen.finite(),
                    forall|v: int| unseen.contains(v) <==> 0 <= v < n && !seen@[v],
                decreases 2 * unseen.len() + stack@.len(),
            {
                let ghost measure = 2 * unseen.len() + stack@.len();
                proof {
                    lemma_take(
                        Labels { seen: seen@, leader: leader@ },
                        edges,
                        n as int,
                        root as int,
                        stack@,
                    );
                }
                let v: usize = stack.pop().unwrap();
                let near = graph.neighbors(v);
                let mut k: usize = 0;
                while k < near.len()
                    invariant
                        k <= near.len(),
                        root < n,
                        v < n,
                        n == views(graph.events()).len(),
                        graph.wf(),
                        edges == graph.links(),
                        forall|b: usize| #[trigger] near@.contains(b) <==> edges.contains((v, b)),
                        seen@.len() == n,
                        leader@.len() == n,
                        (Labels { seen: seen@, leader: leader@ }).gathering(
                            edges,
                            n as int,
                            root as int,
                            stack@,
                            Some(v),
                        ),
                        forall|j: int|
                            0 <= j < k ==> (Labels { seen: seen@, leader: leader@ }).joined(
                                #[trigger] near@[j] as int,
                                root as int,
                            ),
                        unseen.finite(),
                        forall|x: int| unseen.contains(x) <==> 0 <= x < n && !seen@[x],
                        2 * unseen.len() + stack@.len() < measure,
                    decreases near.len() - k,
                {
                    let w: usize = near[k];
                    let ghost labels = Labels { seen: seen@, leader: leader@ };
                    proof {
                        assert(near@.contains(w));
                        assert(edges.contains((v, w)));
                        lemma_edges_symmetric(*graph, v, w);
                        assert(w < n);
                    }
                    if seen[w] {
                        proof {
                            lemma_known(labels, edges, n as int, root as int, stack@, v, w);
                        }
                    } else {
                        proof {
                            lemma_discover(labels, edges, n as int, root, stack@, v, w);
                            assert(unseen.contains(w as int));
                            unseen = unseen.remove(w as int);
                        }
                        seen.set(w, true);
                        leader.set(w, root);
                        stack.push(w);
                        proof {
                            let after = Labels { seen: seen@, leader: leader@ };
                            assert(after == labels.with(w as int, root));
                            assert forall|j: int| 0 <= j < k implies after.joined(
                                #[trigger] near@[j] as int,
                                root as int,
                            ) by {
                                assert(labels.joined(near@[j] as int, root as int));
                            }
                        }
                    }
                    k += 1;
                }
                proof {
                    let labels = Labels { seen: seen@, leader: leader@ };
                    assert forall|w: usize| #[trigger] edges.contains((v, w)) implies labels.joined(
                        w as int,
                        root as int,
                    ) by {
                        assert(near@.contains(w));
                        let j = choose|j: int| 0 <= j < near@.len() && near@[j] == w;
                        assert(labels.joined(near@[j] as int, root as int));
                    }
                    lemma_put_down(labels, edges, n as int, root as int, stack@, v);
                }
            }
            proof {
                assert(stack@ =~= Seq::<usize>::empty());
                lemma_end(Labels { seen: seen@, leader: leader@ }, edges, n as int, root as int);
            }
        }
        root += 1;
    }
    proof {
        lemma_all_led(Labels { seen: seen@, leader: leader@ }, edges, n as int);
    }
    leader
}

} // verus!
