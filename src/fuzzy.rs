use vstd::prelude::*;
use crate::graph::{CodeNode, DependencyGraph, Edge, EdgeType, NodeId, NodeKey};
use crate::slicer::{edge_view, edge_views, line_of, read_location, EdgeView};
use crate::syntax::{block_at, same_text, symbols_in, Extractor, SymbolInfo, SymbolView};
use crate::text::{
    chars_of, ends_with, has_prefix, has_suffix, slice_chars, starts_with, string_of, text_lines,
    trim, trim_chars,
};

verus! {

/// A symbol with the file that defines it.
#[derive(Debug)]
pub struct LocatedSymbol {
    pub info: SymbolInfo,
    pub file: String,
}

pub type LocatedView = (Seq<char>, SymbolView);

impl View for LocatedSymbol {
    type V = LocatedView;

    open spec fn view(&self) -> LocatedView {
        (self.file@, self.info@)
    }
}

/// The language-model slicer's state: the workspace's symbols in order of indexing, and
/// whether the workspace has been scanned. A name may have several definitions; the first
/// one indexed is the one used.
#[derive(Debug)]
pub struct FuzzySlicer {
    pub symbol_cache: Vec<LocatedSymbol>,
    pub workspace_scanned: bool,
}

/// Why a fuzzy slice could not be made.
#[derive(Debug, PartialEq, Eq)]
pub enum SliceError {
    /// The target line lies past the end of the file.
    TargetNotFound { line: u32 },
}

pub open spec fn cache_view(c: Seq<LocatedSymbol>) -> Seq<LocatedView> {
    c.map_values(|s: LocatedSymbol| s@)
}

/// `i` is the first entry of the cache with the name `name`.
pub open spec fn is_first_match(c: Seq<LocatedView>, name: Seq<char>, i: int) -> bool {
    &&& 0 <= i < c.len()
    &&& c[i].1.0 == name
    &&& forall|k: int| 0 <= k < i ==> (#[trigger] c[k]).1.0 != name
}

/// No entry of the cache has the name `name`.
pub open spec fn no_match(c: Seq<LocatedView>, name: Seq<char>) -> bool {
    forall|k: int| 0 <= k < c.len() ==> (#[trigger] c[k]).1.0 != name
}

/// The first entry of the cache with the name `name`, if any.
pub open spec fn first_match_in(c: Seq<LocatedView>, name: Seq<char>) -> Option<int> {
    if exists|i: int| is_first_match(c, name, i) {
        Some(choose|i: int| is_first_match(c, name, i))
    } else {
        None
    }
}

/// The edges that resolving `names` in order adds: for each name with a definition, one
/// edge from the target to the first one.
pub open spec fn resolved_edges(
    c: Seq<LocatedView>,
    target: NodeKey,
    names: Seq<Seq<char>>,
    t: EdgeType,
) -> Seq<EdgeView>
    decreases names.len(),
{
    if names.len() == 0 {
        Seq::empty()
    } else {
        let rest = resolved_edges(c, target, names.drop_last(), t);
        match first_match_in(c, names.last()) {
            Some(i) => rest.push((target, definition_key(c[i]), dependency_edge_type(t))),
            None => rest,
        }
    }
}

pub open spec fn name_views(names: Seq<String>) -> Seq<Seq<char>> {
    names.map_values(|s: String| s@)
}

/// The location of a cached definition: its file and start line, column 0.
pub open spec fn definition_key(s: LocatedView) -> NodeKey {
    (s.0, s.1.3 as u32, 0u32)
}

/// The edge type a dependency gets: `Calls` for a call, `Defines` for anything else.
pub open spec fn dependency_edge_type(t: EdgeType) -> EdgeType {
    if t == EdgeType::Calls {
        EdgeType::Calls
    } else {
        EdgeType::Defines
    }
}

/// The target text: the block at the start of `line`, else that line.
pub open spec fn target_text_of(content: Seq<char>, line: nat) -> Option<Seq<char>> {
    match block_at(content, line, 0) {
        Some(b) => Some(b),
        None => if line < crate::text::lines_of(content).len() {
            Some(line_of(content, line))
        } else {
            None
        },
    }
}

/// The model's reply trimmed, with a leading fence (```` ```json ```` or ```` ``` ````) removed
/// when it starts with one, a trailing fence removed when it ends with one, and trimmed again.
pub open spec fn unfenced(response: Seq<char>) -> Seq<char> {
    let t = trim(response);
    let body = if starts_with(t, "```json"@) {
        t.subrange(7, t.len() as int)
    } else if starts_with(t, "```"@) {
        t.subrange(3, t.len() as int)
    } else {
        t
    };
    let inner = if ends_with(body, "```"@) {
        body.subrange(0, body.len() - 3)
    } else {
        body
    };
    trim(inner)
}

pub open spec fn prompt_head() -> Seq<char> {
    "Analyze the following Rust code and identify external function calls and type references that are crucial for understanding this code's behavior. Ignore standard library calls (std::*). Return a JSON object with 'calls' (list of function names) and 'types' (list of struct/enum names).\n\nCode:\n```rust\n"@
}

pub open spec fn prompt_tail() -> Seq<char> {
    "\n```\n\nJSON:"@
}

fn text(s: &str) -> (r: String)
    ensures
        r@ == s@,
{
    string_of(chars_of(s).as_slice())
}

fn append(s: &mut String, t: &str)
    ensures
        final(s)@ == old(s)@ + t@,
{
    s.append(t);
}

/// The prompt that asks the model for the calls and types the code depends on.
pub fn analysis_prompt(code: &str) -> (r: String)
    ensures
        r@ == prompt_head() + code@ + prompt_tail(),
{
    let mut s = String::new();
    append(&mut s, "Analyze the following Rust code and identify external function calls and type references that are crucial for understanding this code's behavior. Ignore standard library calls (std::*). Return a JSON object with 'calls' (list of function names) and 'types' (list of struct/enum names).\n\nCode:\n```rust\n");
    append(&mut s, code);
    append(&mut s, "\n```\n\nJSON:");
    assert(s@ =~= prompt_head() + code@ + prompt_tail());
    s
}

/// The model's reply without its code fences, ready to parse.
pub fn strip_fences(response: &str) -> (r: String)
    ensures
        r@ == unfenced(response@),
{
    proof {
        reveal_strlit("```");
        reveal_strlit("```json");
    }
    let t = trim_chars(&chars_of(response));
    let fence = chars_of("```");
    let body = if has_prefix(&t, &chars_of("```json")) {
        slice_chars(&t, 7, t.len())
    } else if has_prefix(&t, &fence) {
        slice_chars(&t, 3, t.len())
    } else {
        t
    };
    let inner = if has_suffix(&body, &fence) {
        slice_chars(&body, 0, body.len() - 3)
    } else {
        body
    };
    string_of(trim_chars(&inner).as_slice())
}

/// The text of the target: the block at the start of `line`, else that line; an error
/// past the end of the file.
pub fn target_code(extractor: &Extractor, content: &str, line: u32) -> (r: Result<
    String,
    SliceError,
>)
    ensures
        match r {
            Ok(s) => target_text_of(content@, line as nat) == Some(s@),
            Err(e) => target_text_of(content@, line as nat) is None && e == (SliceError::TargetNotFound {
                line,
            }),
        },
{
    match extractor.extract_block(content, line as usize, 0) {
        Some(b) => Ok(b),
        None => {
            let lines = text_lines(content);
            assert(lines@.map_values(|l: String| l@).len() == lines@.len());
            if (line as usize) < lines.len() {
                Ok(read_location(content, line))
            } else {
                Err(SliceError::TargetNotFound { line })
            }
        },
    }
}

/// A graph that holds only the target node, of kind `target`.
pub fn target_graph(target: &NodeId, code: String) -> (g: DependencyGraph)
    ensures
        g.wf(),
        g.edges@.len() == 0,
        g.nodes@.len() == 1,
        g.nodes@[0].id@ == target@,
        g.nodes@[0].code@ == code@,
        g.nodes@[0].node_type@ == "target"@,
{
    let mut g = DependencyGraph::new();
    g.add_node(CodeNode { id: target.clone(), code, node_type: text("target") });
    g
}

impl FuzzySlicer {
    pub open spec fn cache(&self) -> Seq<LocatedView> {
        cache_view(self.symbol_cache@)
    }

    pub fn new() -> (s: FuzzySlicer)
        ensures
            s.symbol_cache@.len() == 0,
            !s.workspace_scanned,
    {
        FuzzySlicer { symbol_cache: Vec::new(), workspace_scanned: false }
    }

    /// Indexes the top-level symbols of one source file, after those already indexed.
    pub fn index_source(&mut self, extractor: &Extractor, file: &str, source: &str)
        ensures
            final(self).cache() == old(self).cache() + symbols_in(source@).map_values(
                |s: SymbolView| (file@, s),
            ),
            final(self).workspace_scanned == old(self).workspace_scanned,
    {
        let symbols = extractor.get_defined_symbols(source);
        let ghost sv = symbols@.map_values(|s: SymbolInfo| s@);
        let ghost start = self.cache();
        let mut i: usize = 0;
        while i < symbols.len()
            invariant
                sv == symbols@.map_values(|s: SymbolInfo| s@),
                sv == symbols_in(source@),
                i <= symbols@.len(),
                self.cache() == start + sv.subrange(0, i as int).map_values(
                    |s: SymbolView| (file@, s),
                ),
                self.workspace_scanned == old(self).workspace_scanned,
                start == old(self).cache(),
            decreases symbols@.len() - i,
        {
            let located = LocatedSymbol { info: symbols[i].clone(), file: text(file) };
            let ghost before = self.cache();
            self.symbol_cache.push(located);
            assert(self.cache() =~= before.push(located@));
            assert(sv.subrange(0, i as int + 1).map_values(|s: SymbolView| (file@, s))
                =~= sv.subrange(0, i as int).map_values(|s: SymbolView| (file@, s)).push(
                (file@, sv[i as int]),
            ));
            assert(self.cache() =~= start + sv.subrange(0, i as int + 1).map_values(
                |s: SymbolView| (file@, s),
            ));
            i = i + 1;
        }
        assert(sv.subrange(0, sv.len() as int) =~= sv);
    }

    /// Records that the workspace has been scanned.
    pub fn mark_scanned(&mut self)
        ensures
            final(self).workspace_scanned,
            final(self).symbol_cache@ == old(self).symbol_cache@,
    {
        self.workspace_scanned = true;
    }

    /// The first indexed definition of `name`.
    pub fn lookup(&self, name: &str) -> (r: Option<usize>)
        ensures
            match r {
                Some(i) => is_first_match(self.cache(), name@, i as int),
                None => no_match(self.cache(), name@),
            },
    {
        let mut i: usize = 0;
        while i < self.symbol_cache.len()
            invariant
                i <= self.symbol_cache@.len(),
                forall|k: int| 0 <= k < i ==> (#[trigger] self.cache()[k]).1.0 != name@,
            decreases self.symbol_cache@.len() - i,
        {
            assert(self.cache()[i as int] == self.symbol_cache@[i as int]@);
            if same_text(self.symbol_cache[i].info.name.as_str(), name) {
                return Some(i);
            }
            i = i + 1;
        }
        None
    }

    /// Adds the first definition of `name` as a dependency of the target: its node (kind of
    /// the symbol) unless its location has one, and an edge from the target, `Calls` for a
    /// call and `Defines` otherwise. An unknown name changes nothing.
    pub fn add_dependency(
        &self,
        graph: &mut DependencyGraph,
        target_id: &NodeId,
        name: &str,
        edge_type: EdgeType,
    )
        requires
            old(graph).wf(),
        ensures
            final(graph).wf(),
            match self.first_match(name@) {
                None => final(graph).nodes@ == old(graph).nodes@ && final(graph).edges@ == old(
                    graph,
                ).edges@,
                Some(i) => {
                    let d = self.cache()[i];
                    let key = definition_key(d);
                    &&& final(graph).edges@.len() == old(graph).edges@.len() + 1
                    &&& final(graph).edges@.subrange(0, old(graph).edges@.len() as int) == old(
                        graph,
                    ).edges@
                    &&& final(graph).edges@.last().from@ == target_id@
                    &&& final(graph).edges@.last().to@ == key
                    &&& final(graph).edges@.last().edge_type == dependency_edge_type(edge_type)
                    &&& old(graph).contains(key) ==> final(graph).nodes@ == old(graph).nodes@
                    &&& !old(graph).contains(key) ==> final(graph).nodes@ == old(graph).nodes@.push(
                        final(graph).nodes@.last(),
                    ) && final(graph).nodes@.last().id@ == key && final(graph).nodes@.last().code@
                        == d.1.2 && final(graph).nodes@.last().node_type@ == d.1.1
                },
            },
    {
        match self.lookup(name) {
            None => {
                proof {
                    assert(self.first_match(name@) is None);
                }
            },
            Some(i) => {
                proof {
                    self.lemma_first_match(name@, i as int);
                }
                let def = &self.symbol_cache[i];
                assert(self.cache()[i as int] == def@);
                let def_id = NodeId::new(def.file.clone(), def.info.line as u32, 0);
                let ghost before = *graph;
                graph.add_node_if_absent(
                    CodeNode {
                        id: def_id.clone(),
                        code: def.info.code.clone(),
                        node_type: def.info.kind.clone(),
                    },
                );
                let kind = if edge_type == EdgeType::Calls {
                    EdgeType::Calls
                } else {
                    EdgeType::Defines
                };
                graph.add_edge(Edge { from: target_id.clone(), to: def_id, edge_type: kind });
                assert(graph.edges@.subrange(0, before.edges@.len() as int) =~= before.edges@);
            },
        }
    }

    /// The index of the first definition of `name`, if any.
    pub open spec fn first_match(&self, name: Seq<char>) -> Option<int> {
        first_match_in(self.cache(), name)
    }

    proof fn lemma_first_match(&self, name: Seq<char>, i: int)
        requires
            is_first_match(self.cache(), name, i),
        ensures
            self.first_match(name) == Some(i),
    {
        let c = choose|c: int| is_first_match(self.cache(), name, c);
        if c < i {
            assert(self.cache()[c].1.0 != name);
        } else if i < c {
            assert(self.cache()[i].1.0 != name);
        }
    }

    /// Adds each name of `names` as a dependency with `edge_type`, in order.
    fn resolve_names(
        &self,
        graph: &mut DependencyGraph,
        target_id: &NodeId,
        names: &Vec<String>,
        edge_type: EdgeType,
    )
        requires
            old(graph).wf(),
        ensures
            final(graph).wf(),
            grows_from(*old(graph), *final(graph), target_id@),
            resolves_into(*old(graph), *final(graph), self.cache(), name_views(names@)),
            edge_views(final(graph).edges@) == edge_views(old(graph).edges@) + resolved_edges(
                self.cache(),
                target_id@,
                name_views(names@),
                edge_type,
            ),
    {
        let ghost g0 = *graph;
        let ghost nv = name_views(names@);
        let mut i: usize = 0;
        while i < names.len()
            invariant
                graph.wf(),
                nv == name_views(names@),
                i <= names@.len(),
                grows_from(g0, *graph, target_id@),
                resolves_into(g0, *graph, self.cache(), nv),
                edge_views(graph.edges@) == edge_views(g0.edges@) + resolved_edges(
                    self.cache(),
                    target_id@,
                    nv.subrange(0, i as int),
                    edge_type,
                ),
            decreases names@.len() - i,
        {
            let ghost before = *graph;
            assert(nv.subrange(0, i as int + 1).drop_last() =~= nv.subrange(0, i as int));
            assert(nv.subrange(0, i as int + 1).last() == names@[i as int]@);
            self.add_dependency(graph, target_id, names[i].as_str(), edge_type);
            proof {
                if graph.edges@.len() > before.edges@.len() {
                    assert(graph.edges@ =~= before.edges@.push(graph.edges@.last()));
                    assert(edge_views(graph.edges@) =~= edge_views(before.edges@).push(
                        edge_view(graph.edges@.last()),
                    ));
                } else {
                    assert(graph.edges@ =~= before.edges@);
                }
                if graph.edges@.len() > before.edges@.len() {
                    assert forall|k: int| 0 <= k < before.edges@.len() implies graph.edges@[k]
                        == before.edges@[k] by {
                        assert(graph.edges@[k] == graph.edges@.subrange(
                            0,
                            before.edges@.len() as int,
                        )[k]);
                    }
                }
                lemma_grows_trans(g0, before, *graph, target_id@);
                let c = self.cache();
                let name = nv[i as int];
                assert(name == names@[i as int]@);
                assert forall|k: int| 0 <= k < before.nodes@.len() implies graph.nodes@[k]
                    == before.nodes@[k] by {
                    if graph.nodes@.len() > before.nodes@.len() {
                        assert(graph.nodes@ == before.nodes@.push(graph.nodes@.last()));
                    }
                }
                assert forall|k: int| g0.nodes@.len() <= k < graph.nodes@.len() implies defines_named(
                    c,
                    #[trigger] graph.nodes@[k],
                    nv,
                ) by {
                    if k < before.nodes@.len() {
                        assert(graph.nodes@[k] == before.nodes@[k]);
                    } else {
                        let fm = self.first_match(name).unwrap();
                        assert(is_first_match(c, nv[i as int], fm));
                        assert(graph.nodes@[k] == graph.nodes@.last());
                    }
                }
                assert forall|k: int| g0.edges@.len() <= k < graph.edges@.len() implies graph.contains(
                    (#[trigger] graph.edges@[k]).to@,
                ) by {
                    if k < before.edges@.len() {
                        assert(graph.edges@[k] == before.edges@[k]);
                        assert(before.contains(before.edges@[k].to@));
                        lemma_contains_grows(before, *graph, before.edges@[k].to@);
                    } else {
                        let key = graph.edges@.last().to@;
                        assert(graph.edges@[k] == graph.edges@.last());
                        if before.contains(key) {
                            lemma_contains_grows(before, *graph, key);
                        } else {
                            assert(crate::graph::node_at(
                                graph.nodes@,
                                graph.nodes@.len() - 1,
                                key,
                            ));
                        }
                    }
                }
            }
            i = i + 1;
        }
        assert(nv.subrange(0, nv.len() as int) =~= nv);
    }

    /// Adds each called name as a `Calls` dependency and then each type name as a `Defines`
    /// dependency; names with no definition are skipped. Earlier nodes and edges stay, and
    /// every new edge leaves the target.
    pub fn resolve(
        &self,
        graph: &mut DependencyGraph,
        target_id: &NodeId,
        calls: &Vec<String>,
        types: &Vec<String>,
    )
        requires
            old(graph).wf(),
        ensures
            final(graph).wf(),
            grows_from(*old(graph), *final(graph), target_id@),
            resolves_into(
                *old(graph),
                *final(graph),
                self.cache(),
                name_views(calls@) + name_views(types@),
            ),
            edge_views(final(graph).edges@) == edge_views(old(graph).edges@) + resolved_edges(
                self.cache(),
                target_id@,
                name_views(calls@),
                EdgeType::Calls,
            ) + resolved_edges(self.cache(), target_id@, name_views(types@), EdgeType::References),
    {
        let ghost g0 = *graph;
        self.resolve_names(graph, target_id, calls, EdgeType::Calls);
        let ghost g1 = *graph;
        self.resolve_names(graph, target_id, types, EdgeType::References);
        proof {
            lemma_grows_trans(g0, g1, *graph, target_id@);
            let c = self.cache();
            let a = name_views(calls@);
            let b = name_views(types@);
            assert forall|k: int| g0.nodes@.len() <= k < graph.nodes@.len() implies defines_named(
                c,
                #[trigger] graph.nodes@[k],
                a + b,
            ) by {
                lemma_defines_named_widen(c, graph.nodes@[k], a, b);
                if k < g1.nodes@.len() {
                    assert(graph.nodes@[k] == g1.nodes@[k]);
                    assert(defines_named(c, g1.nodes@[k], a));
                } else {
                    assert(defines_named(c, graph.nodes@[k], b));
                }
            }
            assert forall|k: int| g0.edges@.len() <= k < graph.edges@.len() implies graph.contains(
                (#[trigger] graph.edges@[k]).to@,
            ) by {
                if k < g1.edges@.len() {
                    assert(graph.edges@[k] == g1.edges@[k]);
                    assert(g1.contains(g1.edges@[k].to@));
                    lemma_contains_grows(g1, *graph, g1.edges@[k].to@);
                }
            }
            assert(edge_views(graph.edges@) =~= edge_views(g0.edges@) + resolved_edges(
                self.cache(),
                target_id@,
                name_views(calls@),
                EdgeType::Calls,
            ) + resolved_edges(self.cache(), target_id@, name_views(types@), EdgeType::References));
        }
    }
}

/// Node `n` is the first cached definition of one of `names`, with that definition's code
/// and kind.
pub open spec fn defines_named(c: Seq<LocatedView>, n: CodeNode, names: Seq<Seq<char>>) -> bool {
    exists|i: int, j: int|
        0 <= j < names.len() && #[trigger] is_first_match(c, names[j], i) && n.id@
            == definition_key(c[i]) && n.code@ == c[i].1.2 && n.node_type@ == c[i].1.1
}

/// The nodes that `after` adds to `before` are first definitions of `names`, and the edges it
/// adds end at nodes of `after`.
pub open spec fn resolves_into(
    before: DependencyGraph,
    after: DependencyGraph,
    c: Seq<LocatedView>,
    names: Seq<Seq<char>>,
) -> bool {
    &&& forall|k: int|
        before.nodes@.len() <= k < after.nodes@.len() ==> defines_named(
            c,
            #[trigger] after.nodes@[k],
            names,
        )
    &&& forall|k: int|
        before.edges@.len() <= k < after.edges@.len() ==> after.contains(
            (#[trigger] after.edges@[k]).to@,
        )
}

proof fn lemma_contains_grows(before: DependencyGraph, after: DependencyGraph, key: NodeKey)
    requires
        after.nodes@.len() >= before.nodes@.len(),
        forall|k: int| 0 <= k < before.nodes@.len() ==> after.nodes@[k] == before.nodes@[k],
        before.contains(key),
    ensures
        after.contains(key),
{
    let i = choose|i: int| crate::graph::node_at(before.nodes@, i, key);
    assert(after.nodes@[i] == before.nodes@[i]);
    assert(crate::graph::node_at(after.nodes@, i, key));
}

proof fn lemma_defines_named_widen(
    c: Seq<LocatedView>,
    n: CodeNode,
    a: Seq<Seq<char>>,
    b: Seq<Seq<char>>,
)
    ensures
        defines_named(c, n, a) ==> defines_named(c, n, a + b),
        defines_named(c, n, b) ==> defines_named(c, n, a + b),
{
    if defines_named(c, n, a) {
        let (i, j) = choose|i: int, j: int|
            0 <= j < a.len() && #[trigger] is_first_match(c, a[j], i) && n.id@ == definition_key(
                c[i],
            ) && n.code@ == c[i].1.2 && n.node_type@ == c[i].1.1;
        assert((a + b)[j] == a[j]);
        assert(is_first_match(c, (a + b)[j], i));
    }
    if defines_named(c, n, b) {
        let (i, j) = choose|i: int, j: int|
            0 <= j < b.len() && #[trigger] is_first_match(c, b[j], i) && n.id@ == definition_key(
                c[i],
            ) && n.code@ == c[i].1.2 && n.node_type@ == c[i].1.1;
        assert((a + b)[a.len() + j] == b[j]);
        assert(is_first_match(c, (a + b)[a.len() + j], i));
    }
}

/// `after` keeps the nodes and edges of `before`, and its new edges leave `from`.
pub open spec fn grows_from(before: DependencyGraph, after: DependencyGraph, from: NodeKey) -> bool {
    &&& after.nodes@.len() >= before.nodes@.len()
    &&& after.edges@.len() >= before.edges@.len()
    &&& forall|k: int| 0 <= k < before.nodes@.len() ==> after.nodes@[k] == before.nodes@[k]
    &&& forall|k: int| 0 <= k < before.edges@.len() ==> after.edges@[k] == before.edges@[k]
    &&& forall|k: int|
        before.edges@.len() <= k < after.edges@.len() ==> (#[trigger] after.edges@[k]).from@
            == from
}

proof fn lemma_grows_trans(a: DependencyGraph, b: DependencyGraph, c: DependencyGraph, from: NodeKey)
    requires
        grows_from(a, b, from),
        c.nodes@.len() >= b.nodes@.len(),
        c.edges@.len() >= b.edges@.len(),
        forall|k: int| 0 <= k < b.nodes@.len() ==> c.nodes@[k] == b.nodes@[k],
        forall|k: int| 0 <= k < b.edges@.len() ==> c.edges@[k] == b.edges@[k],
        forall|k: int| b.edges@.len() <= k < c.edges@.len() ==> (#[trigger] c.edges@[k]).from@ == from,
    ensures
        grows_from(a, c, from),
{
    assert forall|k: int| a.edges@.len() <= k < c.edges@.len() implies (
    #[trigger] c.edges@[k]).from@ == from by {
        if k < b.edges@.len() {
            assert(c.edges@[k] == b.edges@[k]);
        }
    }
}

} // verus!
