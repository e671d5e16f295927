use vstd::prelude::*;
use crate::graph::{
    closed_at, has_key, has_parent, is_bfs, listed_within, links, node_at, CodeNode,
    DependencyGraph, NodeId, NodeKey,
};
use crate::text::{
    chars_of, contains_seq, decimal, decimal_string, has_infix, has_prefix, join_lines,
    join_with_newlines, lines_of, starts_with, string_of, text_lines, trim_start, trim_start_chars,
};

verus! {

/// How much of a node a rendering includes.
#[derive(Debug, Clone, Copy, PartialEq, Eq, Structural)]
pub enum InclusionLevel {
    FullSource,
    InterfaceSummary,
    Reference,
}

/// One node's part of a rendering.
#[derive(Debug)]
pub struct Section {
    pub id: NodeId,
    pub content: String,
    pub level: InclusionLevel,
}

pub type SectionView = (NodeKey, Seq<char>, InclusionLevel);

impl View for Section {
    type V = SectionView;

    open spec fn view(&self) -> SectionView {
        (self.id@, self.content@, self.level)
    }
}

/// A token-budgeted selection of graph nodes, in breadth-first order from the root.
#[derive(Debug)]
pub struct HierarchicalContext {
    pub sections: Vec<Section>,
}

/// Tokens are estimated as a quarter of the character count, rounded up.
pub open spec fn tokens_of(s: Seq<char>) -> nat {
    (s.len() + 3) / 4
}

/// The sum of the token estimates of the sections' contents.
pub open spec fn total_tokens(secs: Seq<SectionView>) -> nat
    decreases secs.len(),
{
    if secs.len() == 0 {
        0
    } else {
        total_tokens(secs.drop_last()) + tokens_of(secs.last().1)
    }
}

/// A line that an interface summary keeps: after leading white space it starts with
/// `pub fn`, `fn`, `pub struct`, `struct` or `impl`, or it holds a `///` marker.
pub open spec fn keeps_line(l: Seq<char>) -> bool {
    let t = trim_start(l);
    starts_with(t, "pub fn"@) || starts_with(t, "fn"@) || starts_with(t, "pub struct"@)
        || starts_with(t, "struct"@) || starts_with(t, "impl"@) || contains_seq(t, "///"@)
}

/// The lines that an interface summary keeps, in order.
pub open spec fn kept_lines(ls: Seq<Seq<char>>) -> Seq<Seq<char>>
    decreases ls.len(),
{
    if ls.len() == 0 {
        Seq::empty()
    } else if keeps_line(ls.last()) {
        kept_lines(ls.drop_last()).push(ls.last())
    } else {
        kept_lines(ls.drop_last())
    }
}

/// The declaration lines of `code`; where there are none, its first line (or nothing).
pub open spec fn interface_of(code: Seq<char>) -> Seq<char> {
    let ls = lines_of(code);
    let kept = kept_lines(ls);
    if kept.len() > 0 {
        join_lines(kept)
    } else if ls.len() > 0 {
        ls[0]
    } else {
        Seq::empty()
    }
}

/// The one-line pointer that stands for a node: `// See: path:line`.
pub open spec fn reference_of(id: NodeKey) -> Seq<char> {
    "// See: "@ + id.0 + ":"@ + decimal(id.1 as nat)
}

/// What a node of `code` at `depth` contributes when `used` of `max` tokens are spent:
/// the target in full; a direct dependency in full if that fits; otherwise the interface
/// summary if that fits, else the reference if that fits, else nothing.
pub open spec fn section_for(
    code: Seq<char>,
    id: NodeKey,
    depth: nat,
    used: nat,
    max: nat,
) -> Option<(Seq<char>, InclusionLevel)> {
    let iface = interface_of(code);
    let reference = reference_of(id);
    if depth == 0 {
        Some((code, InclusionLevel::FullSource))
    } else if depth == 1 && used + tokens_of(code) <= max {
        Some((code, InclusionLevel::FullSource))
    } else if used + tokens_of(iface) <= max {
        Some((iface, InclusionLevel::InterfaceSummary))
    } else if used + tokens_of(reference) <= max {
        Some((reference, InclusionLevel::Reference))
    } else {
        None
    }
}

/// The code of the node at `key`.
pub open spec fn code_at(nodes: Seq<CodeNode>, key: NodeKey) -> Seq<char> {
    nodes[choose|i: int| node_at(nodes, i, key)].code@
}

/// The sections for `visits` (location and depth, in order) with `used` tokens spent:
/// the walk stops at the first node past the root once the budget is spent, and skips
/// locations without a node.
pub open spec fn plan(
    visits: Seq<(NodeId, usize)>,
    nodes: Seq<CodeNode>,
    max: nat,
    used: nat,
) -> Seq<SectionView>
    decreases visits.len(),
{
    if visits.len() == 0 {
        Seq::empty()
    } else {
        let id = visits[0].0@;
        let depth = visits[0].1 as nat;
        let rest = visits.drop_first();
        if depth > 0 && used >= max {
            Seq::empty()
        } else if !has_key(nodes, id) {
            plan(rest, nodes, max, used)
        } else {
            match section_for(code_at(nodes, id), id, depth, used, max) {
                Some(s) => seq![(id, s.0, s.1)] + plan(rest, nodes, max, used + tokens_of(s.0)),
                None => plan(rest, nodes, max, used),
            }
        }
    }
}

/// The label of a level in a section header.
pub open spec fn marker(level: InclusionLevel) -> Seq<char> {
    match level {
        InclusionLevel::FullSource => "FULL"@,
        InclusionLevel::InterfaceSummary => "INTERFACE"@,
        InclusionLevel::Reference => "REF"@,
    }
}

/// A section as rendered: a header line `// [LEVEL] path:line:column`, the content, a blank.
pub open spec fn section_text(s: SectionView) -> Seq<char> {
    "\n// ["@ + marker(s.2) + "] "@ + s.0.0 + ":"@ + decimal(s.0.1 as nat) + ":"@ + decimal(
        s.0.2 as nat,
    ) + "\n"@ + s.1 + "\n"@
}

/// The sections rendered one after the other.
pub open spec fn rendering(secs: Seq<SectionView>) -> Seq<char>
    decreases secs.len(),
{
    if secs.len() == 0 {
        Seq::empty()
    } else {
        rendering(secs.drop_last()) + section_text(secs.last())
    }
}

/// The estimated token count of `text`: its characters divided by four, rounded up.
pub fn estimate_tokens(text: &str) -> (r: usize)
    ensures
        r == tokens_of(text@),
{
    let n = text.unicode_len();
    n / 4 + if n % 4 == 0 {
        0
    } else {
        1
    }
}

fn keeps_chars(l: &Vec<char>) -> (r: bool)
    ensures
        r == keeps_line(l@),
{
    let t = trim_start_chars(l);
    has_prefix(&t, &chars_of("pub fn")) || has_prefix(&t, &chars_of("fn")) || has_prefix(
        &t,
        &chars_of("pub struct"),
    ) || has_prefix(&t, &chars_of("struct")) || has_prefix(&t, &chars_of("impl")) || has_infix(
        &t,
        &chars_of("///"),
    )
}

/// The interface summary of a block: the lines that start with a declaration keyword or
/// hold a doc marker, joined by line feeds; where none does, the first line.
pub fn extract_interface(code: &str) -> (r: String)
    ensures
        r@ == interface_of(code@),
{
    let lines = text_lines(code);
    let ghost lv = lines@.map_values(|l: String| l@);
    let mut kept: Vec<Vec<char>> = Vec::new();
    let mut i: usize = 0;
    while i < lines.len()
        invariant
            lv == lines@.map_values(|l: String| l@),
            lv == lines_of(code@),
            i <= lines@.len(),
            kept@.map_values(|l: Vec<char>| l@) == kept_lines(lv.subrange(0, i as int)),
        decreases lines@.len() - i,
    {
        assert(lv.subrange(0, i as int + 1).drop_last() =~= lv.subrange(0, i as int));
        let l = chars_of(lines[i].as_str());
        if keeps_chars(&l) {
            kept.push(l);
            assert(kept@.map_values(|l: Vec<char>| l@) =~= kept_lines(lv.subrange(0, i as int)).push(
                lv[i as int],
            ));
        }
        i = i + 1;
    }
    assert(lv.subrange(0, lv.len() as int) =~= lv);
    if kept.len() > 0 {
        let joined = join_with_newlines(&kept);
        string_of(joined.as_slice())
    } else if lines.len() > 0 {
        lines[0].clone()
    } else {
        String::new()
    }
}

/// Appends `t` to `s`.
fn append(s: &mut String, t: &str)
    ensures
        final(s)@ == old(s)@ + t@,
{
    s.append(t);
}

fn reference_text(id: &NodeId) -> (r: String)
    ensures
        r@ == reference_of(id@),
{
    let mut s = String::new();
    append(&mut s, "// See: ");
    append(&mut s, id.file.as_str());
    append(&mut s, ":");
    append(&mut s, decimal_string(id.line as u64).as_str());
    assert(s@ =~= reference_of(id@));
    s
}

fn marker_text(level: InclusionLevel) -> (r: &'static str)
    ensures
        r@ == marker(level),
{
    match level {
        InclusionLevel::FullSource => "FULL",
        InclusionLevel::InterfaceSummary => "INTERFACE",
        InclusionLevel::Reference => "REF",
    }
}

proof fn lemma_plan_step(
    visits: Seq<(NodeId, usize)>,
    i: int,
    nodes: Seq<CodeNode>,
    max: nat,
    used: nat,
)
    requires
        0 <= i < visits.len(),
    ensures
        visits.subrange(i, visits.len() as int).len() > 0,
        visits.subrange(i, visits.len() as int)[0] == visits[i],
        visits.subrange(i, visits.len() as int).drop_first() == visits.subrange(
            i + 1,
            visits.len() as int,
        ),
{
    assert(visits.subrange(i, visits.len() as int).drop_first() =~= visits.subrange(
        i + 1,
        visits.len() as int,
    ));
}

proof fn lemma_total_push(secs: Seq<SectionView>, s: SectionView)
    ensures
        total_tokens(secs.push(s)) == total_tokens(secs) + tokens_of(s.1),
{
    assert(secs.push(s).drop_last() =~= secs);
}

/// The section that a direct dependency gets after `used` tokens: none once the budget is
/// spent, else what `section_for` chooses at depth one.
pub open spec fn dependency_section(
    code: Seq<char>,
    id: NodeKey,
    used: nat,
    max: nat,
) -> Seq<SectionView> {
    if used >= max {
        Seq::empty()
    } else {
        match section_for(code, id, 1, used, max) {
            Some(s) => seq![(id, s.0, s.1)],
            None => Seq::empty(),
        }
    }
}

/// A target with a single dependency: the target is rendered in full, and the dependency
/// gets, within the budget left after the target's tokens, its full code if that fits, else
/// its interface summary if that fits, else its reference if that fits.
pub proof fn lemma_target_and_one_dependency(
    g: DependencyGraph,
    visits: Seq<(NodeId, usize)>,
    max: nat,
)
    requires
        g.wf(),
        g.nodes@.len() == 2,
        g.edges@.len() == 1,
        g.edges@[0].from@ == g.nodes@[0].id@,
        g.edges@[0].to@ == g.nodes@[1].id@,
        is_bfs(visits, g.edges@, g.nodes@[0].id@),
    ensures
        plan(visits, g.nodes@, max, 0) == seq![
            (g.nodes@[0].id@, g.nodes@[0].code@, InclusionLevel::FullSource),
        ] + dependency_section(
            g.nodes@[1].code@,
            g.nodes@[1].id@,
            tokens_of(g.nodes@[0].code@),
            max,
        ),
{
    let nodes = g.nodes@;
    let edges = g.edges@;
    let t = nodes[0].id@;
    let d = nodes[1].id@;
    assert(t != d);
    assert(closed_at(visits, edges, 0, 1));
    assert(listed_within(visits, d, 1));
    let m = choose|m: int| 0 <= m < visits.len() && #[trigger] visits[m].0@ == d && visits[m].1 <= 1;
    assert(m != 0);
    assert forall|k: int| 1 <= k < visits.len() implies #[trigger] visits[k].0@ == d by {
        assert(has_parent(visits, edges, k));
        let j = choose|j: int|
            0 <= j < k && #[trigger] visits[j].1 + 1 == visits[k].1 && links(
                edges,
                visits[j].0@,
                visits[k].0@,
            );
        let e = choose|e: int|
            0 <= e < edges.len() && #[trigger] edges[e].from@ == visits[j].0@ && edges[e].to@
                == visits[k].0@;
        assert(e == 0);
    }
    if visits.len() > 2 {
        assert(visits[1].0@ == d);
        assert(visits[2].0@ == d);
    }
    assert(visits.len() == 2);
    assert(visits[1].0@ == d);
    assert(has_parent(visits, edges, 1));
    assert(visits[1].1 == 1);
    g.lemma_find_spec(t, 0);
    g.lemma_find_spec(d, 1);
    assert(node_at(nodes, 0, t));
    assert(node_at(nodes, 1, d));
    assert(code_at(nodes, t) == nodes[0].code@);
    assert(code_at(nodes, d) == nodes[1].code@);
    let rest = visits.drop_first();
    assert(rest.len() == 1 && rest[0] == visits[1]);
    assert(rest.drop_first() =~= Seq::<(NodeId, usize)>::empty());
    let used = tokens_of(nodes[0].code@);
    assert forall|x: nat| #[trigger] plan(rest.drop_first(), nodes, max, x) == Seq::<
        SectionView,
    >::empty() by {
        assert(rest.drop_first().len() == 0);
    }
    assert(has_key(nodes, d));
    assert(rest[0].0@ == d && rest[0].1 == 1);
    if used < max {
        match section_for(nodes[1].code@, d, 1, used, max) {
            Some(sec) => {
                assert(plan(rest, nodes, max, used) == seq![(d, sec.0, sec.1)] + plan(
                    rest.drop_first(),
                    nodes,
                    max,
                    used + tokens_of(sec.0),
                ));
                assert(plan(rest.drop_first(), nodes, max, used + tokens_of(sec.0)) == Seq::<
                    SectionView,
                >::empty());
                assert(plan(rest, nodes, max, used) =~= seq![(d, sec.0, sec.1)]);
            },
            None => {
                assert(plan(rest, nodes, max, used) == plan(rest.drop_first(), nodes, max, used));
                assert(plan(rest.drop_first(), nodes, max, used) == Seq::<SectionView>::empty());
            },
        }
    } else {
        assert(plan(rest, nodes, max, used) == Seq::<SectionView>::empty());
    }
    assert(plan(rest, nodes, max, used) =~= dependency_section(nodes[1].code@, d, used, max));
}

impl Default for HierarchicalContext {
    fn default() -> (c: HierarchicalContext)
        ensures
            c.sections@.len() == 0,
    {
        HierarchicalContext::new()
    }
}

impl HierarchicalContext {
    pub open spec fn views(&self) -> Seq<SectionView> {
        self.sections@.map_values(|s: Section| s@)
    }

    pub fn new() -> (c: HierarchicalContext)
        ensures
            c.sections@.len() == 0,
    {
        HierarchicalContext { sections: Vec::new() }
    }

    /// Builds the context for an ordered list of visits (location, depth) whose entries past
    /// the first lie at depth one or more: exactly the sections that `plan` describes. Past
    /// the target, the token estimates of all sections stay within `max_tokens`.
    pub fn build_from_visits(
        graph: &DependencyGraph,
        visits: &Vec<(NodeId, usize)>,
        max_tokens: usize,
    ) -> (c: HierarchicalContext)
        requires
            graph.wf(),
            forall|k: int| 1 <= k < visits@.len() ==> #[trigger] visits@[k].1 >= 1,
        ensures
            c.views() == plan(visits@, graph.nodes@, max_tokens as nat, 0),
            c.views().len() <= 1 || total_tokens(c.views()) <= max_tokens,
    {
        let ghost nodes = graph.nodes@;
        let ghost max = max_tokens as nat;
        let ghost whole = plan(visits@, nodes, max, 0);
        let mut sections: Vec<Section> = Vec::new();
        let mut used: usize = 0;
        let mut i: usize = 0;
        assert(visits@.subrange(0, visits@.len() as int) =~= visits@);
        while i < visits.len() && !(visits[i].1 > 0 && used >= max_tokens)
            invariant
                graph.wf(),
                nodes == graph.nodes@,
                max == max_tokens as nat,
                whole == plan(visits@, nodes, max, 0),
                forall|k: int| 1 <= k < visits@.len() ==> #[trigger] visits@[k].1 >= 1,
                i <= visits@.len(),
                sections@.map_values(|s: Section| s@) + plan(
                    visits@.subrange(i as int, visits@.len() as int),
                    nodes,
                    max,
                    used as nat,
                ) == whole,
                used == total_tokens(sections@.map_values(|s: Section| s@)),
                i == 0 ==> sections@.len() == 0,
                sections@.len() <= 1 || used <= max_tokens,
            decreases visits@.len() - i,
        {
            let ghost secs = sections@.map_values(|s: Section| s@);
            proof {
                lemma_plan_step(visits@, i as int, nodes, max, used as nat);
            }
            let id = &visits[i].0;
            let depth = visits[i].1;
            match graph.find_node(id) {
                None => {},
                Some(n) => {
                    proof {
                        graph.lemma_find_spec(id@, n as int);
                    }
                    let code = &graph.nodes[n].code;
                    let full_tokens = estimate_tokens(code.as_str());
                    let chosen: Option<(String, InclusionLevel)> = if depth == 0 {
                        Some((code.clone(), InclusionLevel::FullSource))
                    } else if depth == 1 && full_tokens <= max_tokens - used {
                        Some((code.clone(), InclusionLevel::FullSource))
                    } else {
                        let summary = extract_interface(code.as_str());
                        if estimate_tokens(summary.as_str()) <= max_tokens - used {
                            Some((summary, InclusionLevel::InterfaceSummary))
                        } else {
                            let reference = reference_text(id);
                            if estimate_tokens(reference.as_str()) <= max_tokens - used {
                                Some((reference, InclusionLevel::Reference))
                            } else {
                                None
                            }
                        }
                    };
                    match chosen {
                        None => {},
                        Some((content, level)) => {
                            let t = estimate_tokens(content.as_str());
                            assert(i > 0 ==> used + t <= max_tokens);
                            let section = Section { id: id.clone(), content, level };
                            proof {
                                lemma_total_push(secs, section@);
                            }
                            sections.push(section);
                            used = used + t;
                            assert(sections@.map_values(|s: Section| s@) =~= secs.push(section@));
                            assert(secs.push(section@) + plan(
                                visits@.subrange(i as int + 1, visits@.len() as int),
                                nodes,
                                max,
                                used as nat,
                            ) =~= secs + plan(
                                visits@.subrange(i as int, visits@.len() as int),
                                nodes,
                                max,
                                (used - t) as nat,
                            ));
                        },
                    }
                },
            }
            i = i + 1;
        }
        proof {
            if i < visits@.len() {
                lemma_plan_step(visits@, i as int, nodes, max, used as nat);
            }
            assert(plan(visits@.subrange(i as int, visits@.len() as int), nodes, max, used as nat)
                =~= Seq::<SectionView>::empty());
            assert(sections@.map_values(|s: Section| s@) =~= whole);
        }
        HierarchicalContext { sections }
    }

    /// Builds the context of `graph` from `root` with a budget of `max_tokens`: the sections
    /// that `plan` gives for a breadth-first walk from `root`.
    pub fn build(graph: &DependencyGraph, root: &NodeId, max_tokens: usize) -> (c:
        HierarchicalContext)
        requires
            graph.wf(),
        ensures
            exists|visits: Seq<(NodeId, usize)>|
                is_bfs(visits, graph.edges@, root@) && c.views() == plan(
                    visits,
                    graph.nodes@,
                    max_tokens as nat,
                    0,
                ),
            c.views().len() <= 1 || total_tokens(c.views()) <= max_tokens,
            graph.contains(root@) ==> c.views().len() >= 1 && c.views()[0] == (
                root@,
                code_at(graph.nodes@, root@),
                InclusionLevel::FullSource,
            ),
    {
        let visits = graph.bfs_from(root);
        assert forall|k: int| 1 <= k < visits@.len() implies #[trigger] visits@[k].1 >= 1 by {
            assert(crate::graph::has_parent(visits@, graph.edges@, k));
        }
        let c = Self::build_from_visits(graph, &visits, max_tokens);
        proof {
            if graph.contains(root@) {
                let v = visits@;
                assert(v[0].0@ == root@ && v[0].1 == 0);
                assert(plan(v, graph.nodes@, max_tokens as nat, 0)[0] == (
                    root@,
                    code_at(graph.nodes@, root@),
                    InclusionLevel::FullSource,
                ));
            }
        }
        c
    }

    /// The sections rendered in order, each as a header line, its content and a blank.
    pub fn render(&self) -> (r: String)
        ensures
            r@ == rendering(self.views()),
    {
        let mut out = String::new();
        let mut i: usize = 0;
        while i < self.sections.len()
            invariant
                i <= self.sections@.len(),
                out@ == rendering(self.views().subrange(0, i as int)),
            decreases self.sections@.len() - i,
        {
            let s = &self.sections[i];
            let ghost before = out@;
            append(&mut out, "\n// [");
            append(&mut out, marker_text(s.level));
            append(&mut out, "] ");
            append(&mut out, s.id.file.as_str());
            append(&mut out, ":");
            append(&mut out, decimal_string(s.id.line as u64).as_str());
            append(&mut out, ":");
            append(&mut out, decimal_string(s.id.column as u64).as_str());
            append(&mut out, "\n");
            append(&mut out, s.content.as_str());
            append(&mut out, "\n");
            assert(self.views().subrange(0, i as int + 1).drop_last() =~= self.views().subrange(
                0,
                i as int,
            ));
            assert(out@ =~= before + section_text(s@));
            i = i + 1;
        }
        assert(self.views().subrange(0, self.sections@.len() as int) =~= self.views());
        out
    }
}

} // verus!
