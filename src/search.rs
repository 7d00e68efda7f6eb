//! The reachability graph and the stepped solvers that walk it: a graph with
//! one node per cell and adjacency lists, and breadth-first, depth-first and
//! A* search over it, each expanding one node per call and keeping a
//! back-pointer per node.
use crate::grids::SolverKind;
use vstd::prelude::*;

verus! {

/// One node per cell; `adjacency[a]` lists the nodes that `a` has an edge to.
pub struct Graph {
    pub adjacency: Vec<Vec<usize>>,
}

impl Graph {
    pub open spec fn node_count(&self) -> int {
        self.adjacency@.len() as int
    }

    pub open spec fn has_edge(&self, a: int, b: int) -> bool {
        &&& 0 <= a < self.node_count()
        &&& 0 <= b < self.node_count()
        &&& self.adjacency@[a]@.contains(b as usize)
    }

    /// Every listed neighbour is a node of the graph.
    pub open spec fn wf(&self) -> bool {
        forall|a: int, k: int|
            0 <= a < self.node_count() && 0 <= k < self.adjacency@[a]@.len() ==> (
            #[trigger] self.adjacency@[a]@[k]) < self.node_count()
    }

    /// A non-empty sequence of nodes in which each one has an edge to the next.
    pub open spec fn is_path(&self, p: Seq<usize>) -> bool {
        &&& p.len() > 0
        &&& forall|k: int| 0 <= k < p.len() ==> #[trigger] p[k] < self.node_count()
        &&& forall|k: int|
            0 <= k < p.len() - 1 ==> #[trigger] self.has_edge(p[k] as int, p[k + 1] as int)
    }

    /// No node occurs twice.
    pub open spec fn is_simple(p: Seq<usize>) -> bool {
        forall|i: int, j: int| 0 <= i < j < p.len() ==> #[trigger] p[i] != #[trigger] p[j]
    }

    pub open spec fn reachable(&self, a: int, b: int) -> bool {
        exists|p: Seq<usize>| #[trigger] self.is_path(p) && p[0] == a && p.last() == b
    }
}

/// Number of `true` entries.
pub open spec fn count_true(s: Seq<bool>) -> nat
    decreases s.len(),
{
    if s.len() == 0 {
        0
    } else {
        count_true(s.drop_last()) + if s.last() {
            1nat
        } else {
            0nat
        }
    }
}

pub proof fn lemma_count_true_bound(s: Seq<bool>, k: int)
    requires
        0 <= k < s.len(),
        !s[k],
    ensures
        count_true(s) < s.len(),
        count_true(s.update(k, true)) == count_true(s) + 1,
    decreases s.len(),
{
    lemma_count_true_le(s.drop_last());
    if k == s.len() - 1 {
        assert(s.update(k, true).drop_last() =~= s.drop_last());
    } else {
        lemma_count_true_bound(s.drop_last(), k);
        assert(s.update(k, true).drop_last() =~= s.drop_last().update(k, true));
    }
}

pub proof fn lemma_count_true_le(s: Seq<bool>)
    ensures
        count_true(s) <= s.len(),
    decreases s.len(),
{
    if s.len() > 0 {
        lemma_count_true_le(s.drop_last());
    }
}

/// Removing an entry other than `j` keeps `j` in the sequence.
proof fn lemma_remove_keeps(s: Seq<usize>, k: int, j: usize)
    requires
        0 <= k < s.len(),
        s.contains(j),
        s[k] != j,
    ensures
        s.remove(k).contains(j),
{
    let m = choose|m: int| 0 <= m < s.len() && s[m] == j;
    if m < k {
        assert(s.remove(k)[m] == j);
    } else {
        assert(s.remove(k)[m - 1] == j);
    }
}

/// A set of nodes that holds every node an edge leads to from one of its
/// members holds every node that a path leads to from a member.
proof fn lemma_closed_set_reaches(g: &Graph, closed: Seq<bool>, p: Seq<usize>)
    requires
        closed.len() == g.node_count(),
        forall|j: int, b: int|
            0 <= j < g.node_count() && closed[j] && #[trigger] g.has_edge(j, b) ==> closed[b],
        g.is_path(p),
        closed[p[0] as int],
    ensures
        closed[p.last() as int],
    decreases p.len(),
{
    if p.len() > 1 {
        let q = p.drop_last();
        assert(g.is_path(q)) by {
            assert forall|k: int| 0 <= k < q.len() - 1 implies #[trigger] g.has_edge(
                q[k] as int,
                q[k + 1] as int,
            ) by {
                assert(g.has_edge(p[k] as int, p[k + 1] as int));
            }
            assert forall|k: int| 0 <= k < q.len() implies #[trigger] q[k] < g.node_count() by {
                assert(p[k] < g.node_count());
            }
        }
        lemma_closed_set_reaches(g, closed, q);
        assert(g.has_edge(p[p.len() - 2] as int, p[(p.len() - 2) + 1] as int));
    }
}

/// Whether the goal has been reached plays no part in well-formedness.
pub proof fn lemma_wf_solved(g: &Graph, s: Solver, t: Solver)
    requires
        s.wf(g),
        t == (Solver { solved: t.solved, ..s }),
    ensures
        t.wf(g),
{
    assert(t.pending() == s.pending());
    assert forall|j: int| 0 <= j < g.node_count() implies #[trigger] t.expanded_fully(g, j) by {
        assert(s.expanded_fully(g, j));
    }
    assert forall|j: int| 0 <= j < g.node_count() && #[trigger] t.is_open(j) implies t.pending().contains(j as usize) by {
        assert(s.is_open(j));
    }
}

/// Sum of the row and column distances between two cell indices.
pub open spec fn manhattan_spec(a: int, b: int, columns: int) -> int {
    let dr = a / columns - b / columns;
    let dc = a % columns - b % columns;
    (if dr < 0 {
        -dr
    } else {
        dr
    }) + (if dc < 0 {
        -dc
    } else {
        dc
    })
}

fn abs_diff(a: usize, b: usize) -> (r: usize)
    ensures
        r == if a < b {
            b - a
        } else {
            a - b
        },
{
    if a < b {
        b - a
    } else {
        a - b
    }
}

fn manhattan(a: usize, b: usize, columns: usize) -> (r: usize)
    requires
        columns > 0,
    ensures
        r == if manhattan_spec(a as int, b as int, columns as int) > usize::MAX {
            usize::MAX as int
        } else {
            manhattan_spec(a as int, b as int, columns as int)
        },
{
    let dr = abs_diff(a / columns, b / columns);
    let dc = abs_diff(a % columns, b % columns);
    dr.saturating_add(dc)
}

/// Search state over a graph: a frontier, a back-pointer and a cost per node,
/// which nodes have been discovered and which expanded ("closed").
pub struct Solver {
    pub kind: SolverKind,
    pub root: usize,
    pub goal: usize,
    pub columns: usize,
    pub frontier: Vec<usize>,
    pub head: usize,
    pub from: Vec<usize>,
    pub cost: Vec<usize>,
    pub discovered: Vec<bool>,
    pub closed: Vec<bool>,
    pub closed_count: usize,
    pub solved: bool,
}

impl Solver {
    /// The frontier entries not yet taken out.
    pub open spec fn pending(&self) -> Seq<usize> {
        self.frontier@.subrange(self.head as int, self.frontier@.len() as int)
    }

    /// The estimated total cost that A* orders its frontier by: cost so far
    /// plus the Manhattan distance to the goal, both saturating.
    pub open spec fn priority(&self, x: int) -> int {
        let m = manhattan_spec(x, self.goal as int, self.columns as int);
        let h = if m > usize::MAX {
            usize::MAX as int
        } else {
            m
        };
        let total = self.cost@[x] + h;
        if total > usize::MAX {
            usize::MAX as int
        } else {
            total
        }
    }

    /// Nodes discovered but not yet expanded.
    pub open spec fn is_open(&self, j: int) -> bool {
        self.discovered@[j] && !self.closed@[j]
    }

    /// Every edge out of an expanded node leads to a discovered node.
    pub open spec fn expanded_fully(&self, g: &Graph, j: int) -> bool {
        self.closed@[j] ==> forall|b: int| #[trigger] g.has_edge(j, b) ==> self.discovered@[b]
    }

    /// Everything but the expansion property.
    pub open spec fn wf_core(&self, g: &Graph) -> bool {
        let n = g.node_count();
        &&& g.wf()
        &&& self.from@.len() == n
        &&& self.cost@.len() == n
        &&& self.discovered@.len() == n
        &&& self.closed@.len() == n
        &&& self.columns > 0
        &&& self.root < n
        &&& self.from@[self.root as int] == self.root
        &&& forall|j: int| 0 <= j < n ==> #[trigger] self.from@[j] < n
        &&& self.cost@[self.root as int] == 0
        &&& self.discovered@[self.root as int]
        &&& self.head <= self.frontier@.len()
        &&& self.closed_count == count_true(self.closed@)
        &&& forall|k: int|
            0 <= k < self.pending().len() ==> #[trigger] self.pending()[k] < n
                && self.discovered@[self.pending()[k] as int]
        &&& forall|j: int| 0 <= j < n && #[trigger] self.closed@[j] ==> self.discovered@[j]
        &&& forall|j: int|
            0 <= j < n && #[trigger] self.discovered@[j] ==> self.cost@[j] <= self.closed_count
        &&& forall|j: int|
            0 <= j < n && #[trigger] self.discovered@[j] && j != self.root ==> {
                let p = self.from@[j] as int;
                &&& self.closed@[p]
                &&& g.has_edge(p, j)
                &&& self.cost@[p] < self.cost@[j]
            }
        &&& forall|j: int|
            0 <= j < n && #[trigger] self.is_open(j) ==> self.pending().contains(j as usize)
    }

    pub open spec fn wf(&self, g: &Graph) -> bool {
        &&& self.wf_core(g)
        &&& forall|j: int| 0 <= j < g.node_count() ==> #[trigger] self.expanded_fully(g, j)
    }

    /// No node is discovered and still waiting to be expanded.
    pub open spec fn exhausted(&self, g: &Graph) -> bool {
        forall|j: int| 0 <= j < g.node_count() ==> !#[trigger] self.is_open(j)
    }

    /// A solver that has discovered the root and nothing else.
    pub open spec fn is_fresh(&self, g: &Graph) -> bool {
        &&& !self.solved
        &&& forall|j: int| 0 <= j < g.node_count() ==> !#[trigger] self.closed@[j]
        &&& forall|j: int|
            0 <= j < g.node_count() ==> (#[trigger] self.discovered@[j] <==> j == self.root)
    }

    pub fn new(g: &Graph, kind: SolverKind, root: usize, goal: usize, columns: usize) -> (r: Solver)
        requires
            g.wf(),
            root < g.node_count(),
            columns > 0,
        ensures
            r.wf(g),
            r.is_fresh(g),
            r.kind == kind,
            r.root == root,
            r.goal == goal,
            r.columns == columns,
    {
        let n = g.adjacency.len();
        let mut from: Vec<usize> = Vec::new();
        let mut cost: Vec<usize> = Vec::new();
        let mut discovered: Vec<bool> = Vec::new();
        let mut closed: Vec<bool> = Vec::new();
        let mut i: usize = 0;
        while i < n
            invariant
                n == g.node_count(),
                root < n,
                i <= n,
                from@.len() == i,
                cost@.len() == i,
                discovered@.len() == i,
                closed@.len() == i,
                forall|j: int| 0 <= j < i ==> from@[j] == j && cost@[j] == 0,
                forall|j: int| 0 <= j < i ==> (discovered@[j] <==> j == root),
                forall|j: int| 0 <= j < i ==> !closed@[j],
                count_true(closed@) == 0,
            decreases n - i,
        {
            from.push(i);
            cost.push(0);
            discovered.push(i == root);
            proof {
                assert(closed@.push(false).drop_last() =~= closed@);
            }
            closed.push(false);
            i = i + 1;
        }
        let mut frontier: Vec<usize> = Vec::new();
        frontier.push(root);
        let r = Solver {
            kind,
            root,
            goal,
            columns,
            frontier,
            head: 0,
            from,
            cost,
            discovered,
            closed,
            closed_count: 0,
            solved: false,
        };
        proof {
            assert(r.pending() =~= seq![root]);
            assert(r.pending()[0] == root);
        }
        r
    }

    pub fn is_solved(&self) -> (r: bool)
        ensures
            r == self.solved,
    {
        self.solved
    }

    pub fn set_solved(&mut self)
        ensures
            *final(self) == (Solver { solved: true, ..*old(self) }),
    {
        self.solved = true;
    }

    /// The node from which `node` was discovered; the root points to itself.
    pub fn from_index_of(&self, node: usize) -> (r: usize)
        requires
            node < self.from@.len(),
        ensures
            r == self.from@[node as int],
    {
        self.from[node]
    }

    /// Position in the frontier of the next node that A* expands: the first
    /// one of least estimated total cost.
    fn best_index(&self) -> (k: usize)
        requires
            self.head < self.frontier@.len(),
            self.columns > 0,
            forall|k: int| 0 <= k < self.pending().len() ==> #[trigger] self.pending()[k] < self.cost@.len(),
        ensures
            self.head <= k < self.frontier@.len(),
            forall|m: int|
                self.head <= m < self.frontier@.len() ==> self.priority(self.frontier@[k as int] as int)
                    <= self.priority(#[trigger] self.frontier@[m] as int),
    {
        let len = self.frontier.len();
        let mut best = self.head;
        proof {
            assert(self.head < len);
        }
        proof {
            assert(self.pending()[0] == self.frontier@[best as int]);
        }
        let mut best_f: usize = self.cost[self.frontier[best]].saturating_add(
            manhattan(self.frontier[best], self.goal, self.columns),
        );
        let mut k: usize = self.head + 1;
        while k < self.frontier.len()
            invariant
                self.head <= best < k <= self.frontier@.len(),
                self.columns > 0,
                forall|k: int| 0 <= k < self.pending().len() ==> #[trigger] self.pending()[k] < self.cost@.len(),
                best_f == self.priority(self.frontier@[best as int] as int),
                forall|m: int|
                    self.head <= m < k ==> best_f <= self.priority(#[trigger] self.frontier@[m] as int),
            decreases self.frontier@.len() - k,
        {
            proof {
                assert(self.pending()[k - self.head] == self.frontier@[k as int]);
            }
            let node = self.frontier[k];
            let f = self.cost[node].saturating_add(manhattan(node, self.goal, self.columns));
            if f < best_f {
                best = k;
                best_f = f;
            }
            k = k + 1;
        }
        best
    }


    /// Visits a neighbour `nb` of the node `node` being expanded: discovers
    /// it, or, for A*, gives it `node` as its back-pointer when that is cheaper.
    fn visit_neighbor(&mut self, g: &Graph, node: usize, nb: usize)
        requires
            old(self).wf_core(g),
            old(self).closed@[node as int],
            old(self).cost@[node as int] < old(self).closed_count,
            g.has_edge(node as int, nb as int),
        ensures
            final(self).wf_core(g),
            final(self).kind == old(self).kind,
            final(self).root == old(self).root,
            final(self).goal == old(self).goal,
            final(self).columns == old(self).columns,
            final(self).solved == old(self).solved,
            final(self).closed@ == old(self).closed@,
            final(self).closed_count == old(self).closed_count,
            final(self).discovered@ == old(self).discovered@.update(nb as int, true),
            final(self).cost@[node as int] == old(self).cost@[node as int],
            forall|j: int|
                0 <= j < g.node_count() && #[trigger] old(self).closed@[j] ==> final(self).from@[j]
                    == old(self).from@[j],
    {
        let node_cost = self.cost[node];
        if self.closed[nb] {
            proof {
                assert(self.discovered@ =~= old(self).discovered@.update(nb as int, true));
            }
            return;
        }
        if !self.discovered[nb] {
            self.discover(g, node, nb);
        } else if self.kind == SolverKind::AStar && node_cost + 1 < self.cost[nb] {
            self.reparent(g, node, nb);
        } else {
            proof {
                assert(self.discovered@ =~= old(self).discovered@.update(nb as int, true));
            }
        }
    }

    fn discover(&mut self, g: &Graph, node: usize, nb: usize)
        requires
            old(self).wf_core(g),
            old(self).closed@[node as int],
            old(self).cost@[node as int] < old(self).closed_count,
            g.has_edge(node as int, nb as int),
            !old(self).discovered@[nb as int],
        ensures
            final(self).wf_core(g),
            final(self).kind == old(self).kind,
            final(self).root == old(self).root,
            final(self).goal == old(self).goal,
            final(self).columns == old(self).columns,
            final(self).solved == old(self).solved,
            final(self).closed@ == old(self).closed@,
            final(self).closed_count == old(self).closed_count,
            final(self).discovered@ == old(self).discovered@.update(nb as int, true),
            final(self).cost@[node as int] == old(self).cost@[node as int],
            forall|j: int|
                0 <= j < g.node_count() && #[trigger] old(self).closed@[j] ==> final(self).from@[j]
                    == old(self).from@[j],
    {
        let ghost n = g.node_count();
        let node_cost = self.cost[node];
        let ghost before = *self;
        self.discovered.set(nb, true);
        self.from.set(nb, node);
        self.cost.set(nb, node_cost + 1);
        self.frontier.push(nb);
        proof {
            assert(nb != node);
            assert(self.pending() =~= before.pending().push(nb));
            assert forall|j: int| 0 <= j < n && #[trigger] self.is_open(j) implies self.pending().contains(j as usize) by {
                if j != nb {
                    assert(before.is_open(j));
                    let w = choose|w: int| 0 <= w < before.pending().len() && before.pending()[w] == j as usize;
                    assert(self.pending()[w] == j as usize);
                } else {
                    assert(self.pending()[before.pending().len() as int] == nb);
                }
            }
            assert forall|k: int| 0 <= k < self.pending().len() implies #[trigger] self.pending()[k] < n
                && self.discovered@[self.pending()[k] as int] by {
                if k < before.pending().len() {
                    assert(self.pending()[k] == before.pending()[k]);
                }
            }
            assert forall|j: int| 0 <= j < n && #[trigger] self.closed@[j] implies self.discovered@[j] by {
                assert(before.closed@[j]);
            }
            assert forall|j: int|
                0 <= j < n && #[trigger] self.discovered@[j] implies self.cost@[j] <= self.closed_count by {
                if j != nb {
                    assert(before.discovered@[j]);
                }
            }
            assert forall|j: int|
                0 <= j < n && #[trigger] self.discovered@[j] && j != self.root implies {
                    let p = self.from@[j] as int;
                    &&& self.closed@[p]
                    &&& g.has_edge(p, j)
                    &&& self.cost@[p] < self.cost@[j]
                } by {
                if j != nb {
                    assert(before.discovered@[j]);
                    assert(before.closed@[before.from@[j] as int]);
                }
            }
            assert(self.discovered@ =~= before.discovered@.update(nb as int, true));
        }
    }

    fn reparent(&mut self, g: &Graph, node: usize, nb: usize)
        requires
            old(self).wf_core(g),
            old(self).closed@[node as int],
            old(self).cost@[node as int] < old(self).closed_count,
            g.has_edge(node as int, nb as int),
            old(self).discovered@[nb as int],
            !old(self).closed@[nb as int],
            old(self).cost@[node as int] + 1 < old(self).cost@[nb as int],
        ensures
            final(self).wf_core(g),
            final(self).kind == old(self).kind,
            final(self).root == old(self).root,
            final(self).goal == old(self).goal,
            final(self).columns == old(self).columns,
            final(self).solved == old(self).solved,
            final(self).closed@ == old(self).closed@,
            final(self).closed_count == old(self).closed_count,
            final(self).discovered@ == old(self).discovered@.update(nb as int, true),
            final(self).cost@[node as int] == old(self).cost@[node as int],
            forall|j: int|
                0 <= j < g.node_count() && #[trigger] old(self).closed@[j] ==> final(self).from@[j]
                    == old(self).from@[j],
    {
        let ghost n = g.node_count();
        let node_cost = self.cost[node];
        let ghost before = *self;
        self.from.set(nb, node);
        self.cost.set(nb, node_cost + 1);
        proof {
            assert(nb != node);
            assert(nb != self.root);
            assert(self.pending() == before.pending());
            assert forall|j: int| 0 <= j < n && #[trigger] self.is_open(j) implies self.pending().contains(j as usize) by {
                assert(before.is_open(j));
            }
            assert forall|k: int| 0 <= k < self.pending().len() implies #[trigger] self.pending()[k] < n
                && self.discovered@[self.pending()[k] as int] by {
                assert(before.pending()[k] < n);
            }
            assert forall|j: int| 0 <= j < n && #[trigger] self.closed@[j] implies self.discovered@[j] by {
                assert(before.closed@[j]);
            }
            assert forall|j: int|
                0 <= j < n && #[trigger] self.discovered@[j] implies self.cost@[j] <= self.closed_count by {
                assert(before.discovered@[j]);
            }
            assert forall|j: int|
                0 <= j < n && #[trigger] self.discovered@[j] && j != self.root implies {
                    let p = self.from@[j] as int;
                    &&& self.closed@[p]
                    &&& g.has_edge(p, j)
                    &&& self.cost@[p] < self.cost@[j]
                } by {
                assert(before.discovered@[j]);
                if j != nb {
                    assert(before.closed@[before.from@[j] as int]);
                }
            }
            assert(self.discovered@ =~= before.discovered@.update(nb as int, true));
        }
    }

    /// Takes one entry out of the pending part of the frontier: the first for
    /// BFS, the last for DFS, the first of least estimated cost for A*.
    fn take_next_entry(&mut self) -> (r: (usize, Ghost<int>))
        requires
            old(self).head < old(self).frontier@.len(),
            old(self).columns > 0,
            forall|k: int| 0 <= k < old(self).pending().len() ==> #[trigger] old(self).pending()[k] < old(self).cost@.len(),
        ensures
            0 <= r.1@ < old(self).pending().len(),
            old(self).pending()[r.1@] == r.0,
            final(self).pending() == old(self).pending().remove(r.1@),
            final(self).head <= final(self).frontier@.len(),
            *final(self) == (Solver { frontier: final(self).frontier, head: final(self).head, ..*old(self) }),
            old(self).kind == SolverKind::BFS ==> {
                &&& r.0 == old(self).frontier@[old(self).head as int]
                &&& final(self).frontier == old(self).frontier
                &&& final(self).head == old(self).head + 1
            },
            old(self).kind == SolverKind::DFS ==> {
                &&& r.0 == old(self).frontier@.last()
                &&& final(self).frontier@ == old(self).frontier@.drop_last()
                &&& final(self).head == old(self).head
            },
            old(self).kind == SolverKind::AStar ==> forall|m: int|
                old(self).head <= m < old(self).frontier@.len() ==> old(self).priority(r.0 as int)
                    <= old(self).priority(#[trigger] old(self).frontier@[m] as int),
    {
        let ghost pend = self.pending();
        match self.kind {
            SolverKind::BFS => {
                let len = self.frontier.len();
                let x = self.frontier[self.head];
                proof {
                    assert(self.head < len);
                }
                self.head = self.head + 1;
                proof {
                    assert(self.pending() =~= pend.remove(0));
                }
                (x, Ghost(0))
            },
            SolverKind::DFS => {
                let x = self.frontier.pop().unwrap();
                proof {
                    assert(self.pending() =~= pend.remove(pend.len() - 1));
                    assert(self.frontier@ =~= old(self).frontier@.drop_last());
                }
                (x, Ghost(pend.len() - 1))
            },
            SolverKind::AStar => {
                let k = self.best_index();
                let x = self.frontier.remove(k);
                proof {
                    assert(self.pending() =~= pend.remove(k - self.head));
                }
                (x, Ghost(k - self.head))
            },
        }
    }

    /// Expands one node: takes entries out of the frontier (front for BFS,
    /// back for DFS, least estimated cost for A*) until one is found that
    /// was not expanded yet, discovers its undiscovered neighbours and returns
    /// it with its back-pointer. `None` once nothing is left to expand.
    #[verifier::rlimit(100)]
    pub fn next(&mut self, g: &Graph) -> (r: Option<(usize, usize)>)
        requires
            old(self).wf(g),
        ensures
            final(self).wf(g),
            final(self).kind == old(self).kind,
            final(self).root == old(self).root,
            final(self).goal == old(self).goal,
            final(self).columns == old(self).columns,
            final(self).solved == old(self).solved,
            r.is_none() <==> old(self).exhausted(g),
            r.is_none() ==> {
                &&& final(self).closed@ == old(self).closed@
                &&& final(self).discovered@ == old(self).discovered@
                &&& final(self).from@ == old(self).from@
            },
            forall|j: int|
                0 <= j < g.node_count() && #[trigger] old(self).closed@[j] ==> final(self).from@[j]
                    == old(self).from@[j],
            r matches Some((i, p)) ==> old(self).kind == SolverKind::BFS ==> exists|m: int|
                old(self).head <= m < old(self).frontier@.len() && old(self).frontier@[m] == i && forall|m2: int|
                    old(self).head <= m2 < m ==> old(self).closed@[#[trigger] old(self).frontier@[m2] as int],
            r matches Some((i, p)) ==> old(self).kind == SolverKind::DFS ==> exists|m: int|
                old(self).head <= m < old(self).frontier@.len() && old(self).frontier@[m] == i && forall|m2: int|
                    m < m2 < old(self).frontier@.len() ==> old(self).closed@[#[trigger] old(self).frontier@[m2] as int],
            r matches Some((i, p)) ==> old(self).kind == SolverKind::AStar ==> forall|x: int|
                0 <= x < g.node_count() && #[trigger] old(self).is_open(x) ==> old(self).priority(i as int)
                    <= old(self).priority(x),
            r matches Some((i, p)) ==> {
                &&& 0 <= i < g.node_count()
                &&& old(self).is_open(i as int)
                &&& final(self).closed@ == old(self).closed@.update(i as int, true)
                &&& p == final(self).from@[i as int]
                &&& p == old(self).from@[i as int]
                &&& (i == old(self).root || g.has_edge(p as int, i as int))
                &&& forall|j: int|
                    0 <= j < g.node_count() ==> (#[trigger] final(self).discovered@[j] == (
                    old(self).discovered@[j] || g.has_edge(i as int, j)))
            },
    {
        let n = g.adjacency.len();
        loop
            invariant
                self.wf(g),
                n == g.node_count(),
                self.kind == old(self).kind,
                self.root == old(self).root,
                self.goal == old(self).goal,
                self.columns == old(self).columns,
                self.solved == old(self).solved,
                self.closed@ == old(self).closed@,
                self.discovered@ == old(self).discovered@,
                self.from@ == old(self).from@,
                self.cost@ == old(self).cost@,
                self.kind == SolverKind::BFS ==> {
                    &&& self.frontier == old(self).frontier
                    &&& old(self).head <= self.head
                    &&& forall|m2: int|
                        old(self).head <= m2 < self.head ==> old(self).closed@[#[trigger] old(self).frontier@[m2] as int]
                },
                self.kind == SolverKind::DFS ==> {
                    &&& self.head == old(self).head
                    &&& self.frontier@.len() <= old(self).frontier@.len()
                    &&& self.frontier@ == old(self).frontier@.subrange(0, self.frontier@.len() as int)
                    &&& forall|m2: int|
                        self.frontier@.len() <= m2 < old(self).frontier@.len() ==> old(self).closed@[#[trigger] old(self).frontier@[m2] as int]
                },
            decreases self.frontier@.len() - self.head,
        {
            if self.head >= self.frontier.len() {
                proof {
                    assert forall|j: int| 0 <= j < n implies !#[trigger] old(self).is_open(j) by {
                        if self.is_open(j) {
                            assert(self.pending().contains(j as usize));
                        }
                    }
                }
                return None;
            }
            let ghost pend = self.pending();
            let ghost pre = *self;
            let (node, at) = self.take_next_entry();
            let ghost at = at@;
            proof {
                assert(self.pending().len() == pend.len() - 1);
                assert(pend[at] == node);
                assert forall|j: int| 0 <= j < n && #[trigger] self.is_open(j) && j != node implies self.pending().contains(j as usize) by {
                    assert(pre.is_open(j));
                    lemma_remove_keeps(pend, at, j as usize);
                }
                assert forall|k: int| 0 <= k < self.pending().len() implies #[trigger] self.pending()[k] < n
                    && self.discovered@[self.pending()[k] as int] by {
                    if k < at {
                        assert(self.pending()[k] == pend[k]);
                    } else {
                        assert(self.pending()[k] == pend[k + 1]);
                    }
                }
            }
            if !self.closed[node] {
                let ghost mid = *self;
                proof {
                    lemma_count_true_bound(self.closed@, node as int);
                    assert(pend[at] < n && pre.discovered@[pend[at] as int]);
                }
                self.closed.set(node, true);
                self.closed_count = self.closed_count + 1;
                proof {
                    assert forall|j: int| 0 <= j < n && #[trigger] self.is_open(j) implies self.pending().contains(j as usize) by {
                        assert(mid.is_open(j));
                    }
                    assert forall|j: int| 0 <= j < n && #[trigger] self.closed@[j] implies self.discovered@[j] by {
                        if j != node {
                            assert(mid.closed@[j]);
                        }
                    }
                    assert forall|j: int|
                        0 <= j < n && #[trigger] self.discovered@[j] && j != self.root implies {
                            let p = self.from@[j] as int;
                            &&& self.closed@[p]
                            &&& g.has_edge(p, j)
                            &&& self.cost@[p] < self.cost@[j]
                        } by {
                        assert(mid.discovered@[j]);
                    }
                    assert(self.wf_core(g));
                    assert forall|j: int| 0 <= j < n && j != node implies #[trigger] self.expanded_fully(g, j) by {
                        assert(pre.expanded_fully(g, j));
                    }
                }
                let node_cost = self.cost[node];
                let m = g.adjacency[node].len();
                let mut t: usize = 0;
                while t < m
                    invariant
                        n == g.node_count(),
                        node < n,
                        !mid.closed@[node as int],
                        mid.closed@.len() == n,
                        mid.from@.len() == n,
                        mid.discovered@[node as int],
                        m == g.adjacency@[node as int]@.len(),
                        t <= m,
                        node_cost == self.cost@[node as int],
                        node_cost < self.closed_count,
                        self.wf_core(g),
                        self.kind == old(self).kind,
                        self.root == old(self).root,
                        self.goal == old(self).goal,
                        self.columns == old(self).columns,
                        self.solved == old(self).solved,
                        self.closed@ == mid.closed@.update(node as int, true),
                        forall|j: int|
                            0 <= j < n && j != node ==> #[trigger] self.expanded_fully(g, j),
                        forall|u: int|
                            0 <= u < t ==> self.discovered@[#[trigger] g.adjacency@[node as int]@[u] as int],
                        forall|j: int|
                            0 <= j < n ==> (#[trigger] self.discovered@[j] == (mid.discovered@[j]
                                || g.adjacency@[node as int]@.subrange(0, t as int).contains(j as usize))),
                        forall|j: int|
                            0 <= j < n && (mid.closed@[j] || j == node) ==> #[trigger] self.from@[j] == mid.from@[j],
                    decreases m - t,
                {
                    let nb = g.adjacency[node][t];
                    let ghost before = *self;
                    proof {
                        assert(g.adjacency@[node as int]@[t as int] == nb);
                        assert(g.adjacency@[node as int]@.subrange(0, t + 1) =~= g.adjacency@[node as int]@.subrange(0, t as int).push(nb));
                    }
                    self.visit_neighbor(g, node, nb);
                    proof {
                        assert forall|j: int|
                            0 <= j < n && (mid.closed@[j] || j == node) implies #[trigger] self.from@[j] == mid.from@[j] by {
                            assert(before.closed@[j]);
                        }
                        assert forall|j: int|
                            0 <= j < n && j != node implies #[trigger] self.expanded_fully(g, j) by {
                            assert(before.expanded_fully(g, j));
                        }
                        let sub = g.adjacency@[node as int]@.subrange(0, t as int);
                        assert forall|j: int| 0 <= j < n implies (#[trigger] self.discovered@[j] == (mid.discovered@[j]
                                || sub.push(nb).contains(j as usize))) by {
                            assert(before.discovered@[j] == (mid.discovered@[j] || sub.contains(j as usize)));
                            if sub.contains(j as usize) {
                                let w = choose|w: int| 0 <= w < sub.len() && sub[w] == j as usize;
                                assert(sub.push(nb)[w] == j as usize);
                            }
                            if j == nb {
                                assert(sub.push(nb)[sub.len() as int] == nb);
                            }
                            if sub.push(nb).contains(j as usize) && j != nb {
                                let w = choose|w: int| 0 <= w < sub.len() + 1 && sub.push(nb)[w] == j as usize;
                                assert(sub[w] == j as usize);
                            }
                        }
                    }
                    t = t + 1;
                }
                proof {
                    assert(g.adjacency@[node as int]@.subrange(0, m as int) =~= g.adjacency@[node as int]@);
                    assert forall|b: int| #[trigger] g.has_edge(node as int, b) implies self.discovered@[b] by {
                        let u = choose|u: int| 0 <= u < m && g.adjacency@[node as int]@[u] == b as usize;
                        assert(self.discovered@[g.adjacency@[node as int]@[u] as int]);
                    }
                    assert(self.expanded_fully(g, node as int));
                    assert forall|j: int| 0 <= j < n && #[trigger] old(self).closed@[j] implies self.from@[j] == old(self).from@[j] by {
                        assert(mid.closed@[j]);
                    }
                    assert forall|j: int| 0 <= j < n implies (#[trigger] self.discovered@[j] == (
                        old(self).discovered@[j] || g.has_edge(node as int, j))) by {
                        assert(self.discovered@[j] == (mid.discovered@[j]
                            || g.adjacency@[node as int]@.subrange(0, m as int).contains(j as usize)));
                    }
                }
                proof {
                    assert(pre.is_open(node as int));
                    assert(old(self).is_open(node as int));
                    if pre.kind == SolverKind::AStar {
                        assert forall|x: int|
                            0 <= x < g.node_count() && #[trigger] old(self).is_open(x) implies old(self).priority(node as int)
                                <= old(self).priority(x) by {
                            assert(pre.is_open(x));
                            assert(pre.pending().contains(x as usize));
                            let w = choose|w: int| 0 <= w < pre.pending().len() && pre.pending()[w] == x as usize;
                            assert(pre.frontier@[pre.head + w] == x as usize);
                            assert(pre.priority(node as int) <= pre.priority(pre.frontier@[pre.head + w] as int));
                        }
                    }
                    if pre.kind == SolverKind::BFS {
                        assert(old(self).frontier@[pre.head as int] == node);
                    }
                    if pre.kind == SolverKind::DFS {
                        assert(old(self).frontier@[pre.frontier@.len() - 1] == node);
                    }
                }
                return Some((node, self.from[node]));
            }
            proof {
                assert forall|j: int| 0 <= j < n implies #[trigger] self.expanded_fully(g, j) by {
                    assert(pre.expanded_fully(g, j));
                }
                assert forall|j: int| 0 <= j < n && #[trigger] self.is_open(j) implies self.pending().contains(j as usize) by {
                    assert(j != node);
                }
            }
        }
    }

    /// Expands nodes until `goal` is expanded or nothing is left, and returns
    /// the nodes from the root to `goal` along the back-pointers.
    pub fn path_to(&mut self, g: &Graph, goal: usize) -> (r: Option<Vec<usize>>)
        requires
            old(self).wf(g),
            goal < g.node_count(),
        ensures
            final(self).wf(g),
            final(self).kind == old(self).kind,
            final(self).root == old(self).root,
            final(self).goal == old(self).goal,
            final(self).columns == old(self).columns,
            old(self).closed@[goal as int] ==> r.is_none(),
            !old(self).closed@[goal as int] ==> (r.is_some() <==> g.reachable(
                old(self).root as int,
                goal as int,
            )),
            r matches Some(p) ==> {
                &&& g.is_path(p@)
                &&& Graph::is_simple(p@)
                &&& p@[0] == old(self).root
                &&& p@.last() == goal
                &&& final(self).solved
            },
            r.is_none() ==> final(self).solved == old(self).solved,
    {
        let n = g.adjacency.len();
        loop
            invariant_except_break
                self.closed@[goal as int] == old(self).closed@[goal as int],
            invariant
                self.wf(g),
                n == g.node_count(),
                goal < n,
                self.kind == old(self).kind,
                self.root == old(self).root,
                self.goal == old(self).goal,
                self.columns == old(self).columns,
                self.solved == old(self).solved,
            ensures
                self.closed@[goal as int],
                !old(self).closed@[goal as int],
            decreases n - self.closed_count,
        {
            let ghost before = *self;
            proof {
                lemma_count_true_le(self.closed@);
            }
            match self.next(g) {
                None => {
                    proof {
                        if !self.closed@[goal as int] && g.reachable(self.root as int, goal as int) {
                            let p = choose|p: Seq<usize>|
                                #[trigger] g.is_path(p) && p[0] == self.root && p.last() == goal;
                            assert forall|j: int| 0 <= j < n implies !#[trigger] self.is_open(j) by {
                                assert(!before.is_open(j));
                            }
                            assert(!self.is_open(self.root as int));
                            assert forall|j: int, b: int|
                                0 <= j < n && self.closed@[j] && #[trigger] g.has_edge(j, b) implies self.closed@[b] by {
                                assert(self.expanded_fully(g, j));
                                assert(!self.is_open(b));
                            }
                            lemma_closed_set_reaches(g, self.closed@, p);
                        }
                    }
                    return None;
                },
                Some((i, _)) => {
                    proof {
                        lemma_count_true_bound(before.closed@, i as int);
                    }
                    if i == goal {
                        proof {
                            assert(before.is_open(goal as int));
                        }
                        break ;
                    }
                },
            }
        }
        proof {
            assert(self.discovered@[goal as int]);
        }
        let path = self.trace_back(g, goal);
        let ghost unsolved = *self;
        self.solved = true;
        proof {
            lemma_wf_solved(g, unsolved, *self);
        }
        Some(path)
    }

    /// The nodes from the root to `goal` along the back-pointers.
    fn trace_back(&self, g: &Graph, goal: usize) -> (path: Vec<usize>)
        requires
            self.wf(g),
            goal < g.node_count(),
            self.discovered@[goal as int],
        ensures
            g.is_path(path@),
            Graph::is_simple(path@),
            path@[0] == self.root,
            path@.last() == goal,
    {
        let n = g.adjacency.len();
        let mut rev: Vec<usize> = Vec::new();
        rev.push(goal);
        let mut cur = goal;
        while cur != self.root
            invariant
                self.wf(g),
                n == g.node_count(),
                cur < n,
                self.discovered@[cur as int],
                rev@.len() >= 1,
                rev@[0] == goal,
                rev@.last() == cur,
                forall|k: int| 0 <= k < rev@.len() ==> #[trigger] rev@[k] < n,
                forall|k: int|
                    0 <= k < rev@.len() - 1 ==> #[trigger] g.has_edge(rev@[k + 1] as int, rev@[k] as int),
                forall|i: int, j: int|
                    0 <= i < j < rev@.len() ==> self.cost@[#[trigger] rev@[j] as int] < self.cost@[#[trigger] rev@[i] as int],
            decreases self.cost@[cur as int],
        {
            let p = self.from[cur];
            proof {
                assert(self.closed@[p as int]);
            }
            let ghost old_rev = rev@;
            rev.push(p);
            proof {
                assert forall|i: int, j: int|
                    0 <= i < j < rev@.len() implies self.cost@[#[trigger] rev@[j] as int] < self.cost@[#[trigger] rev@[i] as int] by {
                    if j < old_rev.len() {
                        assert(rev@[j] == old_rev[j] && rev@[i] == old_rev[i]);
                    } else if i < old_rev.len() - 1 {
                        assert(rev@[i] == old_rev[i]);
                        assert(self.cost@[old_rev[old_rev.len() - 1] as int] < self.cost@[old_rev[i] as int]);
                    } else {
                        assert(rev@[i] == cur);
                    }
                }
                assert forall|k: int| 0 <= k < rev@.len() - 1 implies #[trigger] g.has_edge(
                    rev@[k + 1] as int,
                    rev@[k] as int,
                ) by {
                    if k < old_rev.len() - 1 {
                        assert(g.has_edge(old_rev[k + 1] as int, old_rev[k] as int));
                    }
                }
            }
            cur = p;
        }
        let len = rev.len();
        let mut path: Vec<usize> = Vec::new();
        let mut k = len;
        while k > 0
            invariant
                len == rev@.len(),
                k <= len,
                path@.len() == len - k,
                forall|t: int| 0 <= t < path@.len() ==> #[trigger] path@[t] == rev@[len - 1 - t],
            decreases k,
        {
            k = k - 1;
            path.push(rev[k]);
        }
        proof {
            assert forall|t: int| 0 <= t < path@.len() implies #[trigger] path@[t] < n by {
                assert(path@[t] == rev@[len - 1 - t]);
            }
            assert forall|t: int| 0 <= t < path@.len() - 1 implies #[trigger] g.has_edge(
                path@[t] as int,
                path@[t + 1] as int,
            ) by {
                assert(path@[t] == rev@[len - 1 - t]);
                assert(path@[t + 1] == rev@[len - 2 - t]);
                assert(g.has_edge(rev@[(len - 2 - t) + 1] as int, rev@[len - 2 - t] as int));
            }
            assert(path@[0] == rev@[len - 1]);
            assert(path@.last() == rev@[0]);
            assert forall|i: int, j: int| 0 <= i < j < path@.len() implies #[trigger] path@[i] != #[trigger] path@[j] by {
                assert(path@[i] == rev@[len - 1 - i]);
                assert(path@[j] == rev@[len - 1 - j]);
                assert(self.cost@[rev@[len - 1 - i] as int] < self.cost@[rev@[len - 1 - j] as int]);
            }
            assert(g.is_path(path@));
        }
        path
    }
}

} // verus!
