use vstd::prelude::*;
use crate::graph::{has_key, is_bfs, node_at, CodeNode, DependencyGraph, Edge, EdgeType, NodeId, NodeKey};
use crate::compression::code_at;
use crate::fuzzy::SliceError;
use crate::text::{decimal, decimal_string};
use crate::syntax::{
    block_at, constraint_views, constraints_at, Constraint, ConstraintView, Extractor,
};
use crate::text::{chars_of, lines_of, string_of, text_lines};

verus! {

/// The severity of a diagnostic reported by the structural backend.
#[derive(Debug, Clone, Copy, PartialEq, Eq, Structural)]
pub enum Severity {
    Error,
    Warning,
    Information,
    Hint,
    Unspecified,
}

/// Which slicer builds the graph.
#[derive(Debug, Clone, Copy, PartialEq, Eq, Structural)]
pub enum Strategy {
    /// The backend is consulted for references, definitions and calls.
    Strict,
    /// The file does not compile; the language-model slicer is used instead.
    Fuzzy,
}

/// The number of diagnostics of severity `Error`.
pub open spec fn error_count(s: Seq<Severity>) -> nat
    decreases s.len(),
{
    if s.len() == 0 {
        0
    } else {
        error_count(s.drop_last()) + if s.last() == Severity::Error {
            1nat
        } else {
            0nat
        }
    }
}

pub fn count_errors(severities: &Vec<Severity>) -> (r: usize)
    ensures
        r == error_count(severities@),
{
    let mut n: usize = 0;
    let mut i: usize = 0;
    while i < severities.len()
        invariant
            i <= severities@.len(),
            n == error_count(severities@.subrange(0, i as int)),
            n <= i,
        decreases severities@.len() - i,
    {
        assert(severities@.subrange(0, i as int + 1).drop_last() =~= severities@.subrange(
            0,
            i as int,
        ));
        if severities[i] == Severity::Error {
            n = n + 1;
        }
        i = i + 1;
    }
    assert(severities@.subrange(0, severities@.len() as int) =~= severities@);
    n
}

/// The fuzzy slicer is chosen exactly when the target file has at least one error.
pub fn choose_strategy(severities: &Vec<Severity>) -> (r: Strategy)
    ensures
        (r == Strategy::Fuzzy) == (error_count(severities@) > 0),
{
    if count_errors(severities) > 0 {
        Strategy::Fuzzy
    } else {
        Strategy::Strict
    }
}

/// Line `line` of `content`, or nothing past the last line.
pub open spec fn line_of(content: Seq<char>, line: nat) -> Seq<char> {
    let ls = lines_of(content);
    if line < ls.len() {
        ls[line as int]
    } else {
        Seq::empty()
    }
}

/// The text of one line of a file; empty past its end.
pub fn read_location(content: &str, line: u32) -> (r: String)
    ensures
        r@ == line_of(content@, line as nat),
{
    let lines = text_lines(content);
    assert(lines@.map_values(|l: String| l@).len() == lines@.len());
    if (line as usize) < lines.len() {
        let r = lines[line as usize].clone();
        assert(lines@.map_values(|l: String| l@)[line as int] == lines@[line as int]@);
        r
    } else {
        String::new()
    }
}

/// The target's text on the strict path: its line; an error past the last line.
pub fn strict_target_code(content: &str, line: u32) -> (r: Result<String, SliceError>)
    ensures
        match r {
            Ok(s) => (line as nat) < lines_of(content@).len() && s@ == line_of(content@, line as nat),
            Err(e) => (line as nat) >= lines_of(content@).len() && e == (SliceError::TargetNotFound {
                line,
            }),
        },
{
    let lines = text_lines(content);
    assert(lines@.map_values(|l: String| l@).len() == lines@.len());
    if (line as usize) < lines.len() {
        Ok(read_location(content, line))
    } else {
        Err(SliceError::TargetNotFound { line })
    }
}

/// The code of a definition or callee: the block at the start of `line`, else the line.
pub open spec fn implementation_of(content: Seq<char>, line: nat) -> Seq<char> {
    match block_at(content, line, 0) {
        Some(b) => b,
        None => line_of(content, line),
    }
}

/// The block that starts at `line` of a file, else that single line (empty past the end).
pub fn read_implementation(extractor: &Extractor, content: &str, line: u32) -> (r: String)
    ensures
        r@ == implementation_of(content@, line as nat),
{
    match extractor.extract_block(content, line as usize, 0) {
        Some(b) => b,
        None => read_location(content, line),
    }
}

/// All the constraints at a call site: its assignments, then its conditions.
pub open spec fn site_constraints_of(source: Seq<char>, line: nat, column: nat) -> Seq<
    ConstraintView,
> {
    constraints_at(source, line, column).0 + constraints_at(source, line, column).1
}

/// The assignments and conditions around a call site, in one list.
pub fn site_constraints(extractor: &Extractor, source: &str, line: u32, column: u32) -> (r: Vec<
    Constraint,
>)
    ensures
        constraint_views(r@) == site_constraints_of(source@, line as nat, column as nat),
{
    let (mut assignments, conditions) = extractor.extract_constraints(
        source,
        line as usize,
        column as usize,
    );
    let ghost a0 = constraint_views(assignments@);
    let mut i: usize = 0;
    while i < conditions.len()
        invariant
            i <= conditions@.len(),
            constraint_views(assignments@) == a0 + constraint_views(conditions@).subrange(
                0,
                i as int,
            ),
        decreases conditions@.len() - i,
    {
        let c = conditions[i].clone();
        let ghost before = constraint_views(assignments@);
        assignments.push(c);
        assert(constraint_views(assignments@) =~= before.push(c@));
        assert(constraint_views(conditions@)[i as int] == c@);
        assert(constraint_views(assignments@) =~= a0 + constraint_views(conditions@).subrange(
            0,
            i as int + 1,
        ));
        i = i + 1;
    }
    assert(constraint_views(conditions@).subrange(0, conditions@.len() as int) =~= constraint_views(
        conditions@,
    ));
    assignments
}

/// A call site is reachable when it has no constraints or the solver finds them consistent.
pub fn site_is_reachable(constraints: &Vec<Constraint>, consistent: bool) -> (r: bool)
    ensures
        r == (constraints@.len() == 0 || consistent),
{
    constraints.len() == 0 || consistent
}

/// A location that refers to the target, with the text of its line.
#[derive(Debug)]
pub struct Reference {
    pub id: NodeId,
    pub code: String,
}

/// A call out of a definition: the callee, its code, and for each call site whether it is
/// reachable.
#[derive(Debug)]
pub struct OutgoingCall {
    pub callee: NodeId,
    pub code: String,
    pub site_reachable: Vec<bool>,
}

/// A definition of the target, its code, and the calls out of it.
#[derive(Debug)]
pub struct Definition {
    pub id: NodeId,
    pub code: String,
    pub calls: Vec<OutgoingCall>,
}

/// What an edge holds: source, destination and type.
pub type EdgeView = (NodeKey, NodeKey, EdgeType);

pub open spec fn edge_view(e: Edge) -> EdgeView {
    (e.from@, e.to@, e.edge_type)
}

pub open spec fn edge_views(es: Seq<Edge>) -> Seq<EdgeView> {
    es.map_values(|e: Edge| edge_view(e))
}

/// Whether some call site is reachable.
pub open spec fn any_reachable(sites: Seq<bool>) -> bool {
    exists|i: int| 0 <= i < sites.len() && sites[i]
}

/// The `Calls` edges out of definition `from`: one per call with a reachable site.
pub open spec fn call_edges(from: NodeKey, calls: Seq<OutgoingCall>) -> Seq<EdgeView>
    decreases calls.len(),
{
    if calls.len() == 0 {
        Seq::empty()
    } else {
        let rest = call_edges(from, calls.drop_last());
        if any_reachable(calls.last().site_reachable@) {
            rest.push((from, calls.last().callee@, EdgeType::Calls))
        } else {
            rest
        }
    }
}

/// The edges of the definitions: target to definition, then the definition's kept calls.
pub open spec fn definition_edges(target: NodeKey, defs: Seq<Definition>) -> Seq<EdgeView>
    decreases defs.len(),
{
    if defs.len() == 0 {
        Seq::empty()
    } else {
        let d = defs.last();
        definition_edges(target, defs.drop_last()) + seq![(target, d.id@, EdgeType::Defines)]
            + call_edges(d.id@, d.calls@)
    }
}

/// The edges from each reference to the target.
pub open spec fn reference_edges(target: NodeKey, refs: Seq<Reference>) -> Seq<EdgeView> {
    refs.map_values(|r: Reference| (r.id@, target, EdgeType::References))
}

/// The edges of the strict slice, in the order they are produced.
pub open spec fn strict_edges(target: NodeKey, refs: Seq<Reference>, defs: Seq<Definition>) -> Seq<
    EdgeView,
> {
    reference_edges(target, refs) + definition_edges(target, defs)
}

/// Every edge end has a node, and every node is the target or an edge end.
pub open spec fn linked(g: DependencyGraph, target: NodeKey) -> bool {
    &&& forall|e: int|
        0 <= e < g.edges@.len() ==> g.contains(#[trigger] g.edges@[e].from@) && g.contains(
            g.edges@[e].to@,
        )
    &&& forall|i: int|
        0 <= i < g.nodes@.len() ==> #[trigger] g.nodes@[i].id@ == target || exists|e: int|
            0 <= e < g.edges@.len() && (#[trigger] g.edges@[e].from@ == g.nodes@[i].id@
                || g.edges@[e].to@ == g.nodes@[i].id@)
}

/// What a node holds: location, code and kind.
pub type NodeView = (NodeKey, Seq<char>, Seq<char>);

pub open spec fn node_view(n: CodeNode) -> NodeView {
    (n.id@, n.code@, n.node_type@)
}

pub open spec fn node_views(ns: Seq<CodeNode>) -> Seq<NodeView> {
    ns.map_values(|n: CodeNode| node_view(n))
}

/// `ns` with `n` appended, unless a node is already at its location.
pub open spec fn insert_absent(ns: Seq<NodeView>, n: NodeView) -> Seq<NodeView> {
    if exists|i: int| 0 <= i < ns.len() && #[trigger] ns[i].0 == n.0 {
        ns
    } else {
        ns.push(n)
    }
}

/// `ns` with a `reference` node for each reference, in order.
pub open spec fn reference_nodes(ns: Seq<NodeView>, refs: Seq<Reference>) -> Seq<NodeView>
    decreases refs.len(),
{
    if refs.len() == 0 {
        ns
    } else {
        insert_absent(
            reference_nodes(ns, refs.drop_last()),
            (refs.last().id@, refs.last().code@, "reference"@),
        )
    }
}

/// `ns` with a `call` node for each call with a reachable site, in order.
pub open spec fn call_nodes(ns: Seq<NodeView>, calls: Seq<OutgoingCall>) -> Seq<NodeView>
    decreases calls.len(),
{
    if calls.len() == 0 {
        ns
    } else {
        let prev = call_nodes(ns, calls.drop_last());
        let c = calls.last();
        if any_reachable(c.site_reachable@) {
            insert_absent(prev, (c.callee@, c.code@, "call"@))
        } else {
            prev
        }
    }
}

/// `ns` with, for each definition in order, its `definition` node and then its call nodes.
pub open spec fn definition_nodes(ns: Seq<NodeView>, defs: Seq<Definition>) -> Seq<NodeView>
    decreases defs.len(),
{
    if defs.len() == 0 {
        ns
    } else {
        let d = defs.last();
        call_nodes(
            insert_absent(definition_nodes(ns, defs.drop_last()), (d.id@, d.code@, "definition"@)),
            d.calls@,
        )
    }
}

/// The nodes of the strict slice, in the order they are produced; a location keeps its first
/// node.
pub open spec fn strict_nodes(
    target: NodeKey,
    code: Seq<char>,
    refs: Seq<Reference>,
    defs: Seq<Definition>,
) -> Seq<NodeView> {
    definition_nodes(reference_nodes(seq![(target, code, "target"@)], refs), defs)
}

/// A node comes from the backend's answers: a reference (kind `reference`, its line), a
/// definition (kind `definition`, its block) or a call with a reachable site (kind `call`,
/// the callee's block).
pub open spec fn from_answers(n: CodeNode, refs: Seq<Reference>, defs: Seq<Definition>) -> bool {
    ||| exists|r: int|
        0 <= r < refs.len() && #[trigger] refs[r].id@ == n.id@ && refs[r].code@ == n.code@
            && n.node_type@ == "reference"@
    ||| exists|d: int|
        0 <= d < defs.len() && #[trigger] defs[d].id@ == n.id@ && defs[d].code@ == n.code@
            && n.node_type@ == "definition"@
    ||| exists|d: int, c: int|
        0 <= d < defs.len() && 0 <= c < defs[d].calls@.len() && #[trigger] defs[d].calls@[c].callee@
            == n.id@ && defs[d].calls@[c].code@ == n.code@ && n.node_type@ == "call"@
            && any_reachable(defs[d].calls@[c].site_reachable@)
}

/// The target node leads the node list with its code and the kind `target`.
pub open spec fn rooted_at(g: DependencyGraph, target: NodeKey, code: Seq<char>) -> bool {
    &&& g.nodes@.len() >= 1
    &&& g.nodes@[0].id@ == target
    &&& g.nodes@[0].code@ == code
    &&& g.nodes@[0].node_type@ == "target"@
}

fn text(s: &str) -> (r: String)
    ensures
        r@ == s@,
{
    string_of(chars_of(s).as_slice())
}

proof fn lemma_linked_node(g: DependencyGraph, target: NodeKey, i: int)
    requires
        linked(g, target),
        0 <= i < g.nodes@.len(),
    ensures
        g.nodes@[i].id@ == target || exists|e: int|
            0 <= e < g.edges@.len() && (#[trigger] g.edges@[e].from@ == g.nodes@[i].id@
                || g.edges@[e].to@ == g.nodes@[i].id@),
{
}

/// Adds `node` unless its location has a node, then an edge with one end at `node` and the
/// other at a location that has a node.
fn add_linked(
    g: &mut DependencyGraph,
    node: CodeNode,
    edge: Edge,
    Ghost(target): Ghost<NodeKey>,
)
    requires
        old(g).wf(),
        linked(*old(g), target),
        (edge.from@ == node.id@ && old(g).contains(edge.to@)) || (edge.to@ == node.id@ && old(
            g,
        ).contains(edge.from@)),
    ensures
        final(g).wf(),
        linked(*final(g), target),
        final(g).edges@ == old(g).edges@.push(edge),
        final(g).nodes@ == old(g).nodes@ || final(g).nodes@ == old(g).nodes@.push(node),
        node_views(final(g).nodes@) == insert_absent(node_views(old(g).nodes@), node_view(node)),
{
    let ghost g0 = *old(g);
    let ghost key = node.id@;
    let ghost nv = node_view(node);
    assert(linked(g0, target));
    assert(g0.wf());
    g.add_node_if_absent(node);
    proof {
        let v0 = node_views(g0.nodes@);
        if g0.contains(key) {
            let i = choose|i: int| crate::graph::node_at(g0.nodes@, i, key);
            assert(v0[i].0 == nv.0);
        } else {
            assert forall|i: int| 0 <= i < v0.len() implies #[trigger] v0[i].0 != nv.0 by {
                assert(!crate::graph::node_at(g0.nodes@, i, key));
            }
            assert(node_views(g.nodes@) =~= v0.push(nv));
        }
    }
    proof {
        assert(g.contains(key)) by {
            if g0.contains(key) {
                let i = choose|i: int| crate::graph::node_at(g0.nodes@, i, key);
                assert(crate::graph::node_at(g.nodes@, i, key));
            } else {
                assert(crate::graph::node_at(g.nodes@, g0.nodes@.len() as int, key));
            }
        }
        assert forall|k: NodeKey| g0.contains(k) implies g.contains(k) by {
            let i = choose|i: int| crate::graph::node_at(g0.nodes@, i, k);
            assert(crate::graph::node_at(g.nodes@, i, k));
        }
    }
    assert(g.edges@ == g0.edges@);
    g.add_edge(edge);
    proof {
        assert(g.edges@ == g0.edges@.push(edge));
        let n = g.edges@.len() - 1;
        assert forall|e: int| 0 <= e < g.edges@.len() implies g.contains(
            #[trigger] g.edges@[e].from@,
        ) && g.contains(g.edges@[e].to@) by {
            if e < n {
                assert(g.edges@[e] == g0.edges@[e]);
                assert(linked(g0, target));
                assert(0 <= e < g0.edges@.len());
                let f = g0.edges@[e].from@;
                assert(g0.contains(f));
                assert(g0.contains(g0.edges@[e].from@) && g0.contains(g0.edges@[e].to@));
            }
        }
        assert forall|i: int| 0 <= i < g.nodes@.len() implies #[trigger] g.nodes@[i].id@ == target
            || exists|e: int|
            0 <= e < g.edges@.len() && (#[trigger] g.edges@[e].from@ == g.nodes@[i].id@
                || g.edges@[e].to@ == g.nodes@[i].id@) by {
            if i < g0.nodes@.len() {
                assert(g.nodes@[i] == g0.nodes@[i]);
                lemma_linked_node(g0, target, i);
                if g0.nodes@[i].id@ != target {
                    let e = choose|e: int|
                        0 <= e < g0.edges@.len() && (#[trigger] g0.edges@[e].from@
                            == g0.nodes@[i].id@ || g0.edges@[e].to@ == g0.nodes@[i].id@);
                    assert(g.edges@[e] == g0.edges@[e]);
                    assert(g.edges@[e].from@ == g0.edges@[e].from@);
                    assert(g.edges@[e].to@ == g0.edges@[e].to@);
                }
            } else {
                assert(g.nodes@[i].id@ == key);
                assert(g.edges@[n] == edge);
                assert(g.edges@[n].from@ == key || g.edges@[n].to@ == key);
            }
        }
    }
}

/// Builds the strict slice from what the backend reported: the target node first (kind
/// `target`), a `reference` node and a `References` edge for each reference, a `definition`
/// node and a `Defines` edge for each definition, and for each call out of a definition
/// with at least one reachable site a `call` node and a `Calls` edge. A location keeps the
/// first node given for it.
pub fn assemble_strict_graph(
    target: NodeId,
    target_code: String,
    references: Vec<Reference>,
    definitions: Vec<Definition>,
) -> (g: DependencyGraph)
    ensures
        g.wf(),
        g.contains(target@),
        rooted_at(g, target@, target_code@),
        linked(g, target@),
        edge_views(g.edges@) == strict_edges(target@, references@, definitions@),
        node_views(g.nodes@) == strict_nodes(target@, target_code@, references@, definitions@),
        forall|i: int|
            1 <= i < g.nodes@.len() ==> from_answers(#[trigger] g.nodes@[i], references@, definitions@),
{
    let ghost t = target@;
    let ghost code0 = target_code@;
    let mut g = DependencyGraph::new();
    g.add_node(CodeNode { id: target.clone(), code: target_code, node_type: text("target") });
    proof {
        reveal_strlit("target");
        assert(crate::graph::node_at(g.nodes@, 0, t));
        assert(node_views(g.nodes@) =~= seq![(t, code0, "target"@)]);
    }
    let ghost init = seq![(t, code0, "target"@)];
    let mut i: usize = 0;
    while i < references.len()
        invariant
            t == target@,
            g.wf(),
            linked(g, t),
            rooted_at(g, t, code0),
            g.contains(t),
            forall|k: int|
                1 <= k < g.nodes@.len() ==> from_answers(
                    #[trigger] g.nodes@[k],
                    references@,
                    definitions@,
                ),
            i <= references@.len(),
            init == seq![(t, code0, "target"@)],
            node_views(g.nodes@) == reference_nodes(init, references@.subrange(0, i as int)),
            edge_views(g.edges@) == reference_edges(t, references@.subrange(0, i as int)),
        decreases references@.len() - i,
    {
        let r = &references[i];
        let ghost before = edge_views(g.edges@);
        let ghost nodes0 = g.nodes@;
        let edge = Edge { from: r.id.clone(), to: target.clone(), edge_type: EdgeType::References };
        let node = CodeNode { id: r.id.clone(), code: r.code.clone(), node_type: text("reference") };
        assert(from_answers(node, references@, definitions@)) by {
            assert(references@[i as int].id@ == node.id@);
        }
        add_linked(&mut g, node, edge, Ghost(t));
        proof {
            assert forall|k: int| 1 <= k < g.nodes@.len() implies from_answers(
                #[trigger] g.nodes@[k],
                references@,
                definitions@,
            ) by {
                if k < nodes0.len() {
                    assert(g.nodes@[k] == nodes0[k]);
                }
            }
            assert(g.contains(t)) by {
                assert(crate::graph::node_at(g.nodes@, 0, t));
            }
            assert(edge_views(g.edges@) =~= before.push(edge_view(edge)));
            assert(references@.subrange(0, i as int + 1).drop_last() =~= references@.subrange(
                0,
                i as int,
            ));
            assert(reference_edges(t, references@.subrange(0, i as int + 1)) =~= reference_edges(
                t,
                references@.subrange(0, i as int),
            ).push((references@[i as int].id@, t, EdgeType::References)));
        }
        i = i + 1;
    }
    assert(references@.subrange(0, references@.len() as int) =~= references@);
    let ghost ref_part = reference_edges(t, references@);
    let ghost ref_nodes = reference_nodes(init, references@);
    let mut d: usize = 0;
    while d < definitions.len()
        invariant
            t == target@,
            g.wf(),
            linked(g, t),
            rooted_at(g, t, code0),
            g.contains(t),
            forall|k: int|
                1 <= k < g.nodes@.len() ==> from_answers(
                    #[trigger] g.nodes@[k],
                    references@,
                    definitions@,
                ),
            ref_part == reference_edges(t, references@),
            ref_nodes == reference_nodes(seq![(t, code0, "target"@)], references@),
            node_views(g.nodes@) == definition_nodes(ref_nodes, definitions@.subrange(0, d as int)),
            d <= definitions@.len(),
            edge_views(g.edges@) == ref_part + definition_edges(
                t,
                definitions@.subrange(0, d as int),
            ),
        decreases definitions@.len() - d,
    {
        let def = &definitions[d];
        let ghost before = edge_views(g.edges@);
        let ghost nodes0 = g.nodes@;
        let edge = Edge { from: target.clone(), to: def.id.clone(), edge_type: EdgeType::Defines };
        let node = CodeNode { id: def.id.clone(), code: def.code.clone(), node_type: text("definition") };
        assert(from_answers(node, references@, definitions@)) by {
            assert(definitions@[d as int].id@ == node.id@);
        }
        add_linked(&mut g, node, edge, Ghost(t));
        proof {
            assert forall|k: int| 1 <= k < g.nodes@.len() implies from_answers(
                #[trigger] g.nodes@[k],
                references@,
                definitions@,
            ) by {
                if k < nodes0.len() {
                    assert(g.nodes@[k] == nodes0[k]);
                }
            }
            assert(g.contains(t)) by {
                assert(crate::graph::node_at(g.nodes@, 0, t));
            }
            assert(edge_views(g.edges@) =~= before.push(edge_view(edge)));
        }
        let ghost def_key = def.id@;
        assert(g.contains(def_key)) by {
            let n = g.edges@.len() - 1;
            assert(g.edges@[n] == edge);
        }
        let ghost mid = edge_views(g.edges@);
        let ghost after_def = node_views(g.nodes@);
        assert(after_def == insert_absent(
            definition_nodes(ref_nodes, definitions@.subrange(0, d as int)),
            (def.id@, def.code@, "definition"@),
        ));
        let mut c: usize = 0;
        while c < def.calls.len()
            invariant
                t == target@,
                g.wf(),
                linked(g, t),
                rooted_at(g, t, code0),
                g.contains(t),
                g.contains(def_key),
                def_key == def.id@,
                def == definitions@[d as int],
                d < definitions@.len(),
                forall|k: int|
                    1 <= k < g.nodes@.len() ==> from_answers(
                        #[trigger] g.nodes@[k],
                        references@,
                        definitions@,
                    ),

                c <= def.calls@.len(),
                after_def == insert_absent(
                    definition_nodes(ref_nodes, definitions@.subrange(0, d as int)),
                    (def.id@, def.code@, "definition"@),
                ),
                ref_nodes == reference_nodes(seq![(t, code0, "target"@)], references@),
                node_views(g.nodes@) == call_nodes(after_def, def.calls@.subrange(0, c as int)),
                edge_views(g.edges@) == mid + call_edges(def_key, def.calls@.subrange(0, c as int)),
            decreases def.calls@.len() - c,
        {
            let call = &def.calls[c];
            assert(def.calls@.subrange(0, c as int + 1).drop_last() =~= def.calls@.subrange(
                0,
                c as int,
            ));
            assert(def.calls@.subrange(0, c as int + 1).last() == call);
            let mut reachable = false;
            let mut s: usize = 0;
            while s < call.site_reachable.len()
                invariant
                    s <= call.site_reachable@.len(),
                    reachable == exists|k: int| 0 <= k < s && call.site_reachable@[k],
                decreases call.site_reachable@.len() - s,
            {
                if call.site_reachable[s] {
                    reachable = true;
                }
                s = s + 1;
            }
            if reachable {
                let ghost before_c = edge_views(g.edges@);
                let ghost nodes0 = g.nodes@;
                let edge = Edge {
                    from: def.id.clone(),
                    to: call.callee.clone(),
                    edge_type: EdgeType::Calls,
                };
                let node = CodeNode {
                    id: call.callee.clone(),
                    code: call.code.clone(),
                    node_type: text("call"),
                };
                assert(from_answers(node, references@, definitions@)) by {
                    assert(definitions@[d as int].calls@[c as int] == *call);
                    assert(definitions@[d as int].calls@[c as int].callee@ == node.id@);
                    assert(any_reachable(definitions@[d as int].calls@[c as int].site_reachable@));
                }
                add_linked(&mut g, node, edge, Ghost(t));
                proof {
                    assert forall|k: int| 1 <= k < g.nodes@.len() implies from_answers(
                        #[trigger] g.nodes@[k],
                        references@,
                        definitions@,
                    ) by {
                        if k < nodes0.len() {
                            assert(g.nodes@[k] == nodes0[k]);
                        }
                    }
                    assert(g.contains(t)) by {
                        assert(crate::graph::node_at(g.nodes@, 0, t));
                    }
                    assert(g.contains(def_key)) by {
                        let j = choose|j: int| node_at(nodes0, j, def_key);
                        assert(node_at(g.nodes@, j, def_key));
                    }
                    assert(edge_views(g.edges@) =~= before_c.push(edge_view(edge)));
                }
            }
            c = c + 1;
        }
        proof {
            assert(def.calls@.subrange(0, def.calls@.len() as int) =~= def.calls@);
            assert(definitions@.subrange(0, d as int + 1).drop_last() =~= definitions@.subrange(
                0,
                d as int,
            ));
            assert(edge_views(g.edges@) =~= ref_part + definition_edges(
                t,
                definitions@.subrange(0, d as int + 1),
            ));
            assert(definitions@.subrange(0, d as int + 1).last() == *def);
            assert(node_views(g.nodes@) == definition_nodes(
                ref_nodes,
                definitions@.subrange(0, d as int + 1),
            ));
        }
        d = d + 1;
    }
    assert(definitions@.subrange(0, definitions@.len() as int) =~= definitions@);
    assert(crate::graph::node_at(g.nodes@, 0, t));
    assert(node_views(g.nodes@) == strict_nodes(t, code0, references@, definitions@));
    g
}

/// The call `j` of `calls` has a reachable site and leads to `callee`.
pub open spec fn kept_call(calls: Seq<OutgoingCall>, j: int, callee: NodeKey) -> bool {
    0 <= j < calls.len() && calls[j].callee@ == callee && any_reachable(calls[j].site_reachable@)
}

proof fn lemma_call_edges(from: NodeKey, calls: Seq<OutgoingCall>)
    ensures
        forall|k: int|
            0 <= k < call_edges(from, calls).len() ==> (#[trigger] call_edges(from, calls)[k]).0
                == from && call_edges(from, calls)[k].2 == EdgeType::Calls && exists|j: int|
                kept_call(calls, j, call_edges(from, calls)[k].1),
        forall|j: int|
            0 <= j < calls.len() && any_reachable(#[trigger] calls[j].site_reachable@)
                ==> call_edges(from, calls).contains((from, calls[j].callee@, EdgeType::Calls)),
    decreases calls.len(),
{
    if calls.len() > 0 {
        let init = calls.drop_last();
        lemma_call_edges(from, init);
        let rest = call_edges(from, init);
        let all = call_edges(from, calls);
        assert forall|k: int| 0 <= k < all.len() implies (#[trigger] all[k]).0 == from && all[k].2
            == EdgeType::Calls && exists|j: int| kept_call(calls, j, all[k].1) by {
            if k < rest.len() {
                assert(all[k] == rest[k]);
                let j = choose|j: int| kept_call(init, j, rest[k].1);
                assert(calls[j] == init[j]);
                assert(kept_call(calls, j, all[k].1));
            } else {
                assert(kept_call(calls, calls.len() - 1, all[k].1));
            }
        }
        assert forall|j: int|
            0 <= j < calls.len() && any_reachable(#[trigger] calls[j].site_reachable@) implies all.contains(
            (from, calls[j].callee@, EdgeType::Calls),
        ) by {
            if j < init.len() {
                assert(calls[j] == init[j]);
                assert(rest.contains((from, init[j].callee@, EdgeType::Calls)));
                let m = choose|m: int|
                    0 <= m < rest.len() && rest[m] == (from, init[j].callee@, EdgeType::Calls);
                assert(all[m] == rest[m]);
            } else {
                assert(all[all.len() - 1] == (from, calls[j].callee@, EdgeType::Calls));
            }
        }
    }
}

/// A `Calls` edge `e` of the definitions' edges leaves definition `i` for call `j`.
pub open spec fn calls_edge_source(defs: Seq<Definition>, e: EdgeView) -> bool {
    exists|i: int, j: int|
        0 <= i < defs.len() && defs[i].id@ == e.0 && #[trigger] kept_call(defs[i].calls@, j, e.1)
}

proof fn lemma_definition_edges(target: NodeKey, defs: Seq<Definition>)
    ensures
        forall|k: int|
            0 <= k < definition_edges(target, defs).len() && (#[trigger] definition_edges(
                target,
                defs,
            )[k]).2 == EdgeType::Calls ==> calls_edge_source(defs, definition_edges(target, defs)[k]),
        forall|i: int, j: int|
            0 <= i < defs.len() && 0 <= j < defs[i].calls@.len() && any_reachable(
                #[trigger] defs[i].calls@[j].site_reachable@,
            ) ==> definition_edges(target, defs).contains(
                (defs[i].id@, defs[i].calls@[j].callee@, EdgeType::Calls),
            ),
    decreases defs.len(),
{
    if defs.len() > 0 {
        let init = defs.drop_last();
        let d = defs.last();
        lemma_definition_edges(target, init);
        lemma_call_edges(d.id@, d.calls@);
        let rest = definition_edges(target, init);
        let mid = rest + seq![(target, d.id@, EdgeType::Defines)];
        let calls = call_edges(d.id@, d.calls@);
        let all = definition_edges(target, defs);
        assert(all == mid + calls);
        assert forall|k: int|
            0 <= k < all.len() && (#[trigger] all[k]).2 == EdgeType::Calls implies calls_edge_source(
            defs,
            all[k],
        ) by {
            if k < rest.len() {
                assert(all[k] == rest[k]);
                let (i, j) = choose|i: int, j: int|
                    0 <= i < init.len() && init[i].id@ == rest[k].0 && #[trigger] kept_call(
                        init[i].calls@,
                        j,
                        rest[k].1,
                    );
                assert(defs[i] == init[i]);
                assert(defs[i].id@ == all[k].0);
                assert(kept_call(defs[i].calls@, j, all[k].1));
            } else if k == rest.len() {
                assert(all[k] == mid[k]);
            } else {
                let m = k - mid.len();
                assert(all[k] == calls[m]);
                let j = choose|j: int| kept_call(d.calls@, j, calls[m].1);
                assert(defs[defs.len() - 1].id@ == all[k].0);
                assert(kept_call(defs[defs.len() - 1].calls@, j, all[k].1));
            }
        }
        assert forall|i: int, j: int|
            0 <= i < defs.len() && 0 <= j < defs[i].calls@.len() && any_reachable(
                #[trigger] defs[i].calls@[j].site_reachable@,
            ) implies all.contains((defs[i].id@, defs[i].calls@[j].callee@, EdgeType::Calls)) by {
            let x = (defs[i].id@, defs[i].calls@[j].callee@, EdgeType::Calls);
            if i < init.len() {
                assert(defs[i] == init[i]);
                assert(init[i].calls@[j].site_reachable@ == defs[i].calls@[j].site_reachable@);
                assert(rest.contains(x));
                let m = choose|m: int| 0 <= m < rest.len() && rest[m] == x;
                assert(all[m] == x);
            } else {
                assert(d.calls@[j].site_reachable@ == defs[i].calls@[j].site_reachable@);
                assert(calls.contains(x));
                let m = choose|m: int| 0 <= m < calls.len() && calls[m] == x;
                assert(all[mid.len() + m] == x);
            }
        }
    }
}

/// Dead-code pruning: a `Calls` edge of the strict slice leaves a definition for one of its
/// calls that has a reachable site, and every call with a reachable site has its edge.
pub proof fn lemma_calls_need_a_reachable_site(
    target: NodeKey,
    refs: Seq<Reference>,
    defs: Seq<Definition>,
)
    ensures
        forall|k: int|
            0 <= k < strict_edges(target, refs, defs).len() && (#[trigger] strict_edges(
                target,
                refs,
                defs,
            )[k]).2 == EdgeType::Calls ==> calls_edge_source(defs, strict_edges(target, refs, defs)[k]),
        forall|i: int, j: int|
            0 <= i < defs.len() && 0 <= j < defs[i].calls@.len() && any_reachable(
                #[trigger] defs[i].calls@[j].site_reachable@,
            ) ==> strict_edges(target, refs, defs).contains(
                (defs[i].id@, defs[i].calls@[j].callee@, EdgeType::Calls),
            ),
{
    lemma_definition_edges(target, defs);
    let r = reference_edges(target, refs);
    let d = definition_edges(target, defs);
    let all = strict_edges(target, refs, defs);
    assert forall|k: int|
        0 <= k < all.len() && (#[trigger] all[k]).2 == EdgeType::Calls implies calls_edge_source(
        defs,
        all[k],
    ) by {
        if k < r.len() {
            assert(all[k] == r[k]);
        } else {
            assert(all[k] == d[k - r.len()]);
        }
    }
    assert forall|i: int, j: int|
        0 <= i < defs.len() && 0 <= j < defs[i].calls@.len() && any_reachable(
            #[trigger] defs[i].calls@[j].site_reachable@,
        ) implies all.contains((defs[i].id@, defs[i].calls@[j].callee@, EdgeType::Calls)) by {
        let x = (defs[i].id@, defs[i].calls@[j].callee@, EdgeType::Calls);
        assert(d.contains(x));
        let m = choose|m: int| 0 <= m < d.len() && d[m] == x;
        assert(all[r.len() + m] == x);
    }
}

/// Two strict slices assembled from the same backend answers have the same nodes (location,
/// code and kind, in order), the same locations and the same edges.
pub proof fn lemma_strict_graph_determined(
    g1: DependencyGraph,
    g2: DependencyGraph,
    target: NodeKey,
    code: Seq<char>,
    refs: Seq<Reference>,
    defs: Seq<Definition>,
)
    requires
        rooted_at(g1, target, code),
        linked(g1, target),
        edge_views(g1.edges@) == strict_edges(target, refs, defs),
        node_views(g1.nodes@) == strict_nodes(target, code, refs, defs),
        node_views(g2.nodes@) == strict_nodes(target, code, refs, defs),
        rooted_at(g2, target, code),
        linked(g2, target),
        edge_views(g2.edges@) == strict_edges(target, refs, defs),
    ensures
        edge_views(g1.edges@) == edge_views(g2.edges@),
        node_views(g1.nodes@) == node_views(g2.nodes@),
        forall|k: NodeKey| g1.contains(k) <==> g2.contains(k),
{
    assert forall|k: NodeKey| g1.contains(k) implies g2.contains(k) by {
        lemma_key_in_other(g1, g2, target, code, k);
    }
    assert forall|k: NodeKey| g2.contains(k) implies g1.contains(k) by {
        lemma_key_in_other(g2, g1, target, code, k);
    }
}

proof fn lemma_key_in_other(
    a: DependencyGraph,
    b: DependencyGraph,
    target: NodeKey,
    code: Seq<char>,
    k: NodeKey,
)
    requires
        rooted_at(a, target, code),
        linked(a, target),
        rooted_at(b, target, code),
        linked(b, target),
        edge_views(a.edges@) == edge_views(b.edges@),
        a.contains(k),
    ensures
        b.contains(k),
{
    let i = choose|i: int| node_at(a.nodes@, i, k);
    if k == target {
        assert(node_at(b.nodes@, 0, k));
    } else {
        assert(a.nodes@[i].id@ == k);
        let e = choose|e: int|
            0 <= e < a.edges@.len() && (#[trigger] a.edges@[e].from@ == a.nodes@[i].id@
                || a.edges@[e].to@ == a.nodes@[i].id@);
        assert(edge_views(a.edges@).len() == a.edges@.len());
        assert(edge_views(b.edges@).len() == b.edges@.len());
        assert(edge_views(a.edges@)[e] == edge_view(a.edges@[e]));
        assert(edge_views(b.edges@)[e] == edge_view(b.edges@[e]));
        assert(b.edges@[e].from@ == a.edges@[e].from@ && b.edges@[e].to@ == a.edges@[e].to@);
        assert(linked(b, target));
        let f = b.edges@[e].from@;
        let t = b.edges@[e].to@;
        assert(b.contains(f));
        assert(b.contains(t));
    }
}

/// One entry of the simple rendering: `// path:line:column (depth d)`, the code, a blank line.
pub open spec fn context_entry(key: NodeKey, depth: nat, code: Seq<char>) -> Seq<char> {
    "// "@ + key.0 + ":"@ + decimal(key.1 as nat) + ":"@ + decimal(key.2 as nat) + " (depth "@
        + decimal(depth) + ")\n"@ + code + "\n\n"@
}

/// The simple rendering of `visits` up to the first one deeper than `max_depth`, skipping
/// locations without a node.
pub open spec fn context_of(visits: Seq<(NodeId, usize)>, nodes: Seq<CodeNode>, max_depth: nat) -> Seq<
    char,
>
    decreases visits.len(),
{
    if visits.len() == 0 {
        Seq::empty()
    } else if visits[0].1 > max_depth {
        Seq::empty()
    } else {
        let rest = context_of(visits.drop_first(), nodes, max_depth);
        if has_key(nodes, visits[0].0@) {
            context_entry(visits[0].0@, visits[0].1 as nat, code_at(nodes, visits[0].0@)) + rest
        } else {
            rest
        }
    }
}

/// What the simple rendering of an empty graph says.
pub open spec fn empty_context() -> Seq<char> {
    "// No context found (graph is empty)"@
}

fn append(s: &mut String, t: &str)
    ensures
        final(s)@ == old(s)@ + t@,
{
    s.append(t);
}

/// The simple rendering of a graph from its first node: each node reached breadth-first up
/// to `max_depth`, with a location header and its code.
pub fn extract_context(graph: &DependencyGraph, max_depth: usize) -> (r: String)
    requires
        graph.wf(),
    ensures
        graph.nodes@.len() == 0 ==> r@ == empty_context(),
        graph.nodes@.len() > 0 ==> exists|visits: Seq<(NodeId, usize)>|
            is_bfs(visits, graph.edges@, graph.nodes@[0].id@) && r@ == context_of(
                visits,
                graph.nodes@,
                max_depth as nat,
            ),
{
    if graph.nodes.len() == 0 {
        return text("// No context found (graph is empty)");
    }
    let visits = graph.bfs_from(&graph.nodes[0].id);
    let ghost whole = context_of(visits@, graph.nodes@, max_depth as nat);
    let mut out = String::new();
    let mut i: usize = 0;
    assert(visits@.subrange(0, visits@.len() as int) =~= visits@);
    while i < visits.len() && visits[i].1 <= max_depth
        invariant
            graph.wf(),
            i <= visits@.len(),
            whole == context_of(visits@, graph.nodes@, max_depth as nat),
            out@ + context_of(
                visits@.subrange(i as int, visits@.len() as int),
                graph.nodes@,
                max_depth as nat,
            ) == whole,
        decreases visits@.len() - i,
    {
        let ghost tail = visits@.subrange(i as int, visits@.len() as int);
        assert(tail.drop_first() =~= visits@.subrange(i as int + 1, visits@.len() as int));
        assert(tail[0] == visits@[i as int]);
        let id = &visits[i].0;
        let depth = visits[i].1;
        match graph.find_node(id) {
            Some(n) => {
                proof {
                    graph.lemma_find_spec(id@, n as int);
                }
                let ghost before = out@;
                append(&mut out, "// ");
                append(&mut out, id.file.as_str());
                append(&mut out, ":");
                append(&mut out, decimal_string(id.line as u64).as_str());
                append(&mut out, ":");
                append(&mut out, decimal_string(id.column as u64).as_str());
                append(&mut out, " (depth ");
                append(&mut out, decimal_string(depth as u64).as_str());
                append(&mut out, ")\n");
                append(&mut out, graph.nodes[n].code.as_str());
                append(&mut out, "\n\n");
                assert((depth as u64) as nat == depth as nat);
                assert(out@ =~= before + context_entry(
                    id@,
                    depth as nat,
                    code_at(graph.nodes@, id@),
                ));
            },
            None => {},
        }
        i = i + 1;
    }
    proof {
        let tail = visits@.subrange(i as int, visits@.len() as int);
        if i < visits@.len() {
            assert(tail[0] == visits@[i as int]);
        }
        assert(context_of(tail, graph.nodes@, max_depth as nat) =~= Seq::<char>::empty());
        assert(out@ =~= whole);
    }
    out
}

} // verus!
