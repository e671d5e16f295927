use vstd::prelude::*;
use vstd::set_lib::lemma_len_subset;

verus! {

/// What a `NodeId` stands for: file path, line and column.
pub type NodeKey = (Seq<char>, u32, u32);

/// The identity of a code location: a file path and a 0-indexed line and column.
#[derive(Debug)]
pub struct NodeId {
    pub file: String,
    pub line: u32,
    pub column: u32,
}

impl View for NodeId {
    type V = NodeKey;

    open spec fn view(&self) -> NodeKey {
        (self.file@, self.line, self.column)
    }
}

impl NodeId {
    pub fn new(file: String, line: u32, column: u32) -> (r: NodeId)
        ensures
            r.file == file,
            r.line == line,
            r.column == column,
    {
        NodeId { file, line, column }
    }

    /// Two ids name the same location when file, line and column agree.
    pub fn same_location(&self, other: &NodeId) -> (r: bool)
        ensures
            r == (self@ == other@),
    {
        self.line == other.line && self.column == other.column && self.file == other.file
    }
}

impl Clone for NodeId {
    fn clone(&self) -> (r: Self)
        ensures
            r == *self,
    {
        NodeId { file: self.file.clone(), line: self.line, column: self.column }
    }
}

impl PartialEq for NodeId {
    fn eq(&self, other: &NodeId) -> (r: bool) {
        self.same_location(other)
    }
}

impl vstd::std_specs::cmp::PartialEqSpecImpl for NodeId {
    open spec fn obeys_eq_spec() -> bool {
        true
    }

    open spec fn eq_spec(&self, other: &NodeId) -> bool {
        self@ == other@
    }
}

/// The relation an edge records between two code fragments.
#[derive(Debug, Clone, Copy, PartialEq, Eq, Structural)]
pub enum EdgeType {
    /// The source is defined by the destination.
    Defines,
    /// The source calls the destination.
    Calls,
    /// The source reads the destination.
    Reads,
    /// The source writes to the destination.
    Writes,
    /// A generic reference from the source to the destination.
    References,
}

/// A fragment of code attached to a location, with a kind tag.
#[derive(Debug)]
pub struct CodeNode {
    pub id: NodeId,
    pub code: String,
    pub node_type: String,
}

impl Clone for CodeNode {
    fn clone(&self) -> (r: Self)
        ensures
            r == *self,
    {
        CodeNode { id: self.id.clone(), code: self.code.clone(), node_type: self.node_type.clone() }
    }
}

/// A directed edge between two locations.
#[derive(Debug)]
pub struct Edge {
    pub from: NodeId,
    pub to: NodeId,
    pub edge_type: EdgeType,
}

impl Clone for Edge {
    fn clone(&self) -> (r: Self)
        ensures
            r == *self,
    {
        Edge { from: self.from.clone(), to: self.to.clone(), edge_type: self.edge_type }
    }
}

/// Code fragments keyed by location, in order of first insertion, and the edges between them.
#[derive(Debug)]
pub struct DependencyGraph {
    pub nodes: Vec<CodeNode>,
    pub edges: Vec<Edge>,
}

/// A node at index `i` of `nodes` has the location `key`.
pub open spec fn node_at(nodes: Seq<CodeNode>, i: int, key: NodeKey) -> bool {
    0 <= i < nodes.len() && nodes[i].id@ == key
}

/// Some node of `nodes` has the location `key`.
pub open spec fn has_key(nodes: Seq<CodeNode>, key: NodeKey) -> bool {
    exists|i: int| node_at(nodes, i, key)
}

/// Some edge goes from `a` to `b`.
pub open spec fn links(edges: Seq<Edge>, a: NodeKey, b: NodeKey) -> bool {
    exists|e: int| 0 <= e < edges.len() && #[trigger] edges[e].from@ == a && edges[e].to@ == b
}

/// No two visit entries share a location.
pub open spec fn distinct_visits(r: Seq<(NodeId, usize)>) -> bool {
    forall|i: int, j: int| 0 <= i < j < r.len() ==> #[trigger] r[i].0@ != #[trigger] r[j].0@
}

/// Distances never decrease along the visit order.
pub open spec fn sorted_visits(r: Seq<(NodeId, usize)>) -> bool {
    forall|i: int, j: int| 0 <= i <= j < r.len() ==> #[trigger] r[i].1 <= #[trigger] r[j].1
}

/// Entry `k` was reached by an edge from an earlier entry one step closer.
pub open spec fn has_parent(r: Seq<(NodeId, usize)>, edges: Seq<Edge>, k: int) -> bool {
    exists|j: int|
        0 <= j < k && #[trigger] r[j].1 + 1 == r[k].1 && links(edges, r[j].0@, r[k].0@)
}

/// `key` is listed at a distance of at most `bound`.
pub open spec fn listed_within(r: Seq<(NodeId, usize)>, key: NodeKey, bound: int) -> bool {
    exists|m: int| 0 <= m < r.len() && #[trigger] r[m].0@ == key && r[m].1 <= bound
}

/// Every edge leaving entry `j` ends at a listed location at most one step further.
pub open spec fn closed_at(r: Seq<(NodeId, usize)>, edges: Seq<Edge>, j: int, upto: int) -> bool {
    forall|e: int|
        0 <= e < upto && #[trigger] edges[e].from@ == r[j].0@ ==> listed_within(
            r,
            edges[e].to@,
            r[j].1 + 1,
        )
}

/// The result of a breadth-first walk from `root` over `edges`: the root first at distance 0,
/// each location at most once, distances non-decreasing, each later entry one step past an
/// earlier one, and every edge out of a listed location leading to a listed location no
/// more than one step further.
pub open spec fn is_bfs(r: Seq<(NodeId, usize)>, edges: Seq<Edge>, root: NodeKey) -> bool {
    &&& r.len() >= 1
    &&& r[0].0@ == root
    &&& r[0].1 == 0
    &&& distinct_visits(r)
    &&& sorted_visits(r)
    &&& forall|k: int| 1 <= k < r.len() ==> #[trigger] has_parent(r, edges, k)
    &&& forall|j: int| 0 <= j < r.len() ==> #[trigger] closed_at(r, edges, j, edges.len() as int)
}

/// The nodes that the edges out of `key` lead to, in edge order, leaving out edges whose end
/// has no node.
pub open spec fn dependencies(nodes: Seq<CodeNode>, edges: Seq<Edge>, key: NodeKey) -> Seq<CodeNode>
    decreases edges.len(),
{
    if edges.len() == 0 {
        Seq::empty()
    } else {
        let rest = dependencies(nodes, edges.drop_last(), key);
        let e = edges.last();
        if e.from@ == key && has_key(nodes, e.to@) {
            rest.push(nodes[choose|i: int| node_at(nodes, i, e.to@)])
        } else {
            rest
        }
    }
}

proof fn lemma_visits_bounded(r: Seq<(NodeId, usize)>, pool: Seq<NodeKey>)
    requires
        distinct_visits(r),
        forall|k: int| 0 <= k < r.len() ==> pool.contains(#[trigger] r[k].0@),
    ensures
        r.len() <= pool.len(),
{
    let keys = r.map_values(|p: (NodeId, usize)| p.0@);
    assert(keys.no_duplicates()) by {
        assert forall|i: int, j: int| 0 <= i < keys.len() && 0 <= j < keys.len() && i != j implies
            keys[i] != keys[j] by {
            if i < j {
                assert(r[i].0@ != r[j].0@);
            } else {
                assert(r[j].0@ != r[i].0@);
            }
        }
    }
    keys.unique_seq_to_set();
    pool.lemma_cardinality_of_set();
    assert(keys.to_set().subset_of(pool.to_set())) by {
        assert forall|x: NodeKey| keys.to_set().contains(x) implies pool.to_set().contains(x) by {
            let k = choose|k: int| 0 <= k < keys.len() && keys[k] == x;
            assert(pool.contains(r[k].0@));
        }
    }
    lemma_len_subset(keys.to_set(), pool.to_set());
}

proof fn lemma_push_keeps_parent(
    old_r: Seq<(NodeId, usize)>,
    r: Seq<(NodeId, usize)>,
    edges: Seq<Edge>,
    k: int,
)
    requires
        r.len() == old_r.len() + 1,
        forall|m: int| 0 <= m < old_r.len() ==> r[m] == old_r[m],
        1 <= k < old_r.len(),
        has_parent(old_r, edges, k),
    ensures
        has_parent(r, edges, k),
{
    let j = choose|j: int|
        0 <= j < k && #[trigger] old_r[j].1 + 1 == old_r[k].1 && links(edges, old_r[j].0@, old_r[k].0@);
    assert(r[j] == old_r[j]);
    assert(r[k] == old_r[k]);
}

proof fn lemma_push_keeps_closed(
    old_r: Seq<(NodeId, usize)>,
    r: Seq<(NodeId, usize)>,
    edges: Seq<Edge>,
    j: int,
    upto: int,
)
    requires
        r.len() == old_r.len() + 1,
        forall|m: int| 0 <= m < old_r.len() ==> r[m] == old_r[m],
        0 <= j < old_r.len(),
        closed_at(old_r, edges, j, upto),
    ensures
        closed_at(r, edges, j, upto),
{
    assert(r[j] == old_r[j]);
    assert forall|f: int| 0 <= f < upto && #[trigger] edges[f].from@ == r[j].0@ implies listed_within(
        r,
        edges[f].to@,
        r[j].1 + 1,
    ) by {
        assert(listed_within(old_r, edges[f].to@, old_r[j].1 + 1));
        let m = choose|m: int|
            0 <= m < old_r.len() && #[trigger] old_r[m].0@ == edges[f].to@ && old_r[m].1 <= old_r[j].1
                + 1;
        assert(r[m] == old_r[m]);
    }
}

fn is_listed(r: &Vec<(NodeId, usize)>, id: &NodeId) -> (found: bool)
    ensures
        found == exists|m: int| 0 <= m < r@.len() && #[trigger] r@[m].0@ == id@,
{
    let mut i: usize = 0;
    while i < r.len()
        invariant
            i <= r@.len(),
            forall|m: int| 0 <= m < i ==> #[trigger] r@[m].0@ != id@,
        decreases r@.len() - i,
    {
        if r[i].0.same_location(id) {
            return true;
        }
        i = i + 1;
    }
    false
}

impl DependencyGraph {
    /// Node locations are unique.
    pub open spec fn wf(&self) -> bool {
        forall|i: int, j: int|
            0 <= i < j < self.nodes@.len() ==> #[trigger] self.nodes@[i].id@
                != #[trigger] self.nodes@[j].id@
    }

    pub open spec fn contains(&self, key: NodeKey) -> bool {
        has_key(self.nodes@, key)
    }

    /// Whether no two nodes share a location.
    pub fn has_unique_locations(&self) -> (r: bool)
        ensures
            r == self.wf(),
    {
        let mut j: usize = 0;
        while j < self.nodes.len()
            invariant
                j <= self.nodes@.len(),
                forall|a: int, b: int|
                    0 <= a < b < j ==> #[trigger] self.nodes@[a].id@ != #[trigger] self.nodes@[b].id@,
            decreases self.nodes@.len() - j,
        {
            let mut i: usize = 0;
            while i < j
                invariant
                    i <= j < self.nodes@.len(),
                    forall|a: int, b: int|
                        0 <= a < b < j ==> #[trigger] self.nodes@[a].id@
                            != #[trigger] self.nodes@[b].id@,
                    forall|a: int| 0 <= a < i ==> #[trigger] self.nodes@[a].id@ != self.nodes@[j as int].id@,
                decreases j - i,
            {
                if self.nodes[i].id.same_location(&self.nodes[j].id) {
                    return false;
                }
                i = i + 1;
            }
            j = j + 1;
        }
        true
    }

    pub fn new() -> (g: DependencyGraph)
        ensures
            g.wf(),
            g.nodes@.len() == 0,
            g.edges@.len() == 0,
    {
        DependencyGraph { nodes: Vec::new(), edges: Vec::new() }
    }

    /// The index of the node at `id`, if there is one.
    pub fn find_node(&self, id: &NodeId) -> (r: Option<usize>)
        ensures
            match r {
                Some(i) => node_at(self.nodes@, i as int, id@),
                None => !self.contains(id@),
            },
    {
        let mut i: usize = 0;
        while i < self.nodes.len()
            invariant
                i <= self.nodes@.len(),
                forall|m: int| 0 <= m < i ==> #[trigger] self.nodes@[m].id@ != id@,
            decreases self.nodes@.len() - i,
        {
            if self.nodes[i].id.same_location(id) {
                return Some(i);
            }
            i = i + 1;
        }
        None
    }

    pub fn contains_node(&self, id: &NodeId) -> (r: bool)
        ensures
            r == self.contains(id@),
    {
        self.find_node(id).is_some()
    }

    /// The node at `id`, if there is one.
    pub fn get_node(&self, id: &NodeId) -> (r: Option<&CodeNode>)
        ensures
            match r {
                Some(n) => self.contains(id@) && n.id@ == id@ && self.nodes@.contains(*n),
                None => !self.contains(id@),
            },
    {
        match self.find_node(id) {
            Some(i) => Some(&self.nodes[i]),
            None => None,
        }
    }

    /// Adds a node; a node already at the same location is replaced in place.
    pub fn add_node(&mut self, node: CodeNode)
        requires
            old(self).wf(),
        ensures
            final(self).wf(),
            final(self).edges@ == old(self).edges@,
            match old(self).find_spec(node.id@) {
                Some(i) => final(self).nodes@ == old(self).nodes@.update(i, node),
                None => final(self).nodes@ == old(self).nodes@.push(node),
            },
    {
        match self.find_node(&node.id) {
            Some(i) => {
                proof {
                    self.lemma_find_spec(node.id@, i as int);
                }
                let ghost before = self.nodes@;
                self.nodes.set(i, node);
                assert forall|a: int, b: int|
                    0 <= a < b < self.nodes@.len() implies #[trigger] self.nodes@[a].id@
                    != #[trigger] self.nodes@[b].id@ by {
                    assert(before[a].id@ != before[b].id@);
                }
            },
            None => {
                let ghost before = self.nodes@;
                self.nodes.push(node);
                assert forall|a: int, b: int|
                    0 <= a < b < self.nodes@.len() implies #[trigger] self.nodes@[a].id@
                    != #[trigger] self.nodes@[b].id@ by {
                    if b < before.len() {
                        assert(before[a].id@ != before[b].id@);
                    } else {
                        assert(!node_at(before, a, node.id@));
                    }
                }
            },
        }
    }

    /// The index of the node at `key`, if there is one.
    pub open spec fn find_spec(&self, key: NodeKey) -> Option<int> {
        if self.contains(key) {
            Some(choose|i: int| node_at(self.nodes@, i, key))
        } else {
            None
        }
    }

    pub proof fn lemma_find_spec(&self, key: NodeKey, i: int)
        requires
            self.wf(),
            node_at(self.nodes@, i, key),
        ensures
            self.find_spec(key) == Some(i),
    {
        let c = choose|c: int| node_at(self.nodes@, c, key);
        if c < i {
            assert(self.nodes@[c].id@ != self.nodes@[i].id@);
        } else if i < c {
            assert(self.nodes@[i].id@ != self.nodes@[c].id@);
        }
    }

    /// Adds a node unless one is already at its location: the first node at a location stays.
    pub fn add_node_if_absent(&mut self, node: CodeNode)
        requires
            old(self).wf(),
        ensures
            final(self).wf(),
            final(self).edges@ == old(self).edges@,
            old(self).contains(node.id@) ==> final(self).nodes@ == old(self).nodes@,
            !old(self).contains(node.id@) ==> final(self).nodes@ == old(self).nodes@.push(node),
    {
        if !self.contains_node(&node.id) {
            self.add_node(node);
        }
    }

    /// Appends an edge; parallel edges are kept.
    pub fn add_edge(&mut self, edge: Edge)
        ensures
            final(self).nodes@ == old(self).nodes@,
            final(self).edges@ == old(self).edges@.push(edge),
    {
        self.edges.push(edge);
    }

    /// Locations reachable from `root` with their distance, in breadth-first order.
    /// Edge types are ignored and a location is marked visited when it is queued.
    pub fn bfs_from(&self, root: &NodeId) -> (r: Vec<(NodeId, usize)>)
        ensures
            is_bfs(r@, self.edges@, root@),
    {
        let ghost edges = self.edges@;
        let ghost pool = seq![root@] + edges.map_values(|e: Edge| e.to@);
        let mut result: Vec<(NodeId, usize)> = Vec::new();
        result.push((root.clone(), 0));
        assert(pool[0] == root@);
        let mut head: usize = 0;
        while head < result.len()
            invariant
                edges == self.edges@,
                pool == seq![root@] + edges.map_values(|e: Edge| e.to@),
                1 <= result@.len(),
                head <= result@.len(),
                result@[0].0@ == root@,
                result@[0].1 == 0,
                distinct_visits(result@),
                sorted_visits(result@),
                forall|k: int| 0 <= k < result@.len() ==> #[trigger] result@[k].1 <= k,
                forall|k: int| 0 <= k < result@.len() ==> pool.contains(#[trigger] result@[k].0@),
                head < result@.len() ==> result@[result@.len() - 1].1 <= result@[head as int].1 + 1,
                forall|k: int| 1 <= k < result@.len() ==> #[trigger] has_parent(result@, edges, k),
                forall|j: int|
                    0 <= j < head ==> #[trigger] closed_at(result@, edges, j, edges.len() as int),
            decreases 2 * pool.len() - result@.len() - head,
        {
            proof {
                lemma_visits_bounded(result@, pool);
            }
            let current = result[head].0.clone();
            let dist = result[head].1;
            let ghost len0 = result@.len();
            let mut e: usize = 0;
            while e < self.edges.len()
                invariant
                    edges == self.edges@,
                    pool == seq![root@] + edges.map_values(|e: Edge| e.to@),
                    head < result@.len(),
                    len0 <= result@.len(),
                    result@[0].0@ == root@,
                    result@[0].1 == 0,
                    current@ == result@[head as int].0@,
                    dist == result@[head as int].1,
                    dist <= head,
                    distinct_visits(result@),
                    sorted_visits(result@),
                    forall|k: int| 0 <= k < result@.len() ==> #[trigger] result@[k].1 <= k,
                    forall|k: int|
                        0 <= k < result@.len() ==> pool.contains(#[trigger] result@[k].0@),
                    result@[result@.len() - 1].1 <= dist + 1,
                    forall|k: int|
                        1 <= k < result@.len() ==> #[trigger] has_parent(result@, edges, k),
                    forall|j: int|
                        0 <= j < head ==> #[trigger] closed_at(
                            result@,
                            edges,
                            j,
                            edges.len() as int,
                        ),
                    closed_at(result@, edges, head as int, e as int),
                decreases edges.len() - e,
            {
                let edge = &self.edges[e];
                if edge.from.same_location(&current) && !is_listed(&result, &edge.to) {
                    let ghost old_r = result@;
                    let len = result.len();
                    proof {
                        assert(pool[e + 1] == edge.to@);
                    }
                    result.push((edge.to.clone(), dist + 1));
                    proof {
                        let r = result@;
                        let n = old_r.len() as int;
                        assert(r[n].0@ == edge.to@);
                        assert(links(edges, r[head as int].0@, r[n].0@));
                        assert(has_parent(r, edges, n));
                        assert forall|k: int| 1 <= k < r.len() implies #[trigger] has_parent(
                            r,
                            edges,
                            k,
                        ) by {
                            if k < n {
                                lemma_push_keeps_parent(old_r, r, edges, k);
                            }
                        }
                        assert forall|j: int| 0 <= j < head implies #[trigger] closed_at(
                            r,
                            edges,
                            j,
                            edges.len() as int,
                        ) by {
                            lemma_push_keeps_closed(old_r, r, edges, j, edges.len() as int);
                        }
                        lemma_push_keeps_closed(old_r, r, edges, head as int, e as int);
                        assert(listed_within(r, edges[e as int].to@, r[head as int].1 + 1)) by {
                            assert(r[n].0@ == edges[e as int].to@);
                        }
                    }
                } else {
                    proof {
                        if edges[e as int].from@ == result@[head as int].0@ {
                            let m = choose|m: int|
                                0 <= m < result@.len() && #[trigger] result@[m].0@
                                    == edges[e as int].to@;
                            assert(listed_within(
                                result@,
                                edges[e as int].to@,
                                result@[head as int].1 + 1,
                            )) by {
                                assert(result@[m].1 <= result@[result@.len() - 1].1);
                            }
                        }
                    }
                }
                e = e + 1;
            }
            proof {
                lemma_visits_bounded(result@, pool);
            }
            head = head + 1;
        }
        result
    }

    /// The nodes reached from `node` by a single outgoing edge, in edge order; edges whose
    /// end has no node are skipped.
    pub fn get_dependencies(&self, node: &NodeId) -> (r: Vec<CodeNode>)
        requires
            self.wf(),
        ensures
            r@ == dependencies(self.nodes@, self.edges@, node@),
    {
        let mut r: Vec<CodeNode> = Vec::new();
        let mut e: usize = 0;
        while e < self.edges.len()
            invariant
                self.wf(),
                e <= self.edges@.len(),
                r@ == dependencies(self.nodes@, self.edges@.subrange(0, e as int), node@),
            decreases self.edges@.len() - e,
        {
            let ghost prefix = self.edges@.subrange(0, e as int + 1);
            assert(prefix.drop_last() == self.edges@.subrange(0, e as int));
            let edge = &self.edges[e];
            if edge.from.same_location(node) {
                match self.find_node(&edge.to) {
                    Some(i) => {
                        proof {
                            self.lemma_find_spec(edge.to@, i as int);
                        }
                        r.push(self.nodes[i].clone());
                    },
                    None => {},
                }
            }
            e = e + 1;
        }
        assert(self.edges@.subrange(0, self.edges@.len() as int) == self.edges@);
        r
    }
}

} // verus!
