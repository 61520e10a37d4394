//! A dependency graph of source files: the nodes are modules and external modules, the
//! edges say how one module refers to another.

use vstd::prelude::*;
use crate::plugin::ResolvedId;

verus! {

/// What `import { a as b } from "source"` says.
#[derive(Debug)]
pub struct ImportDesc {
    pub source: String,
    /// The imported name and the local name of each binding.
    pub names: Vec<(String, String)>,
}

/// What `import("argument")` says.
#[derive(Debug)]
pub struct DynImportDesc {
    pub argument: String,
}

/// What `export { a as b } from "source"` says.
#[derive(Debug)]
pub struct ReExportDesc {
    pub source: String,
    /// The imported name and the exported name of each binding.
    pub names: Vec<(String, String)>,
}

/// What one top-level statement of a module says about other modules.
#[derive(Debug)]
pub enum StatementNode {
    Import(ImportDesc),
    ReExport(ReExportDesc),
    ExportAll { source: String },
    /// A statement that names no other module but by dynamic imports, if at all.
    Other { dynamic_imports: Vec<DynImportDesc> },
}

/// A top-level statement of a module.
#[derive(Debug)]
pub struct Statement {
    pub node: StatementNode,
    /// Whether the statement goes into the output.
    pub included: bool,
}

impl Statement {
    pub fn new(node: StatementNode) -> (r: Self)
        ensures
            r.node == node,
            !r.included,
    {
        Statement { node, included: false }
    }
}

/// A module of the bundle.
#[derive(Debug)]
pub struct Module {
    pub id: String,
    pub source: String,
    pub statements: Vec<Statement>,
}

impl Module {
    pub fn new(id: String) -> (r: Self)
        ensures
            r.id == id,
            r.source@.len() == 0,
            r.statements@.len() == 0,
    {
        Module { id, source: String::new(), statements: Vec::new() }
    }
}

/// A module outside the bundle.
#[derive(Debug)]
pub struct ExternalModule {
    pub id: String,
}

impl ExternalModule {
    pub fn new(id: String) -> (r: Self)
        ensures
            r.id == id,
    {
        ExternalModule { id }
    }
}

/// A node of the dependency graph.
#[derive(Debug)]
pub enum DepNode {
    Mod(Module),
    Ext(ExternalModule),
}

/// An edge of the dependency graph: how the module at its start refers to the one at its end.
#[derive(Debug)]
pub enum Rel {
    Import(ImportDesc),
    DynImport(DynImportDesc),
    ReExport(ReExportDesc),
    ReExportAll,
}

/// What a resolved id stands for.
#[derive(Debug)]
pub enum ModOrExt {
    Mod(Module),
    Ext(ExternalModule),
}

/// The statements of a module, one for each top-level node of its body, in source order.
pub fn parse_to_statements(body: Vec<StatementNode>) -> (r: Vec<Statement>)
    ensures
        r@.len() == body@.len(),
        forall|i: int| 0 <= i < r@.len() ==> (#[trigger] r@[i]).node == body@[i] && !r@[i].included,
{
    let mut body = body;
    let ghost nodes = body@;
    let mut reversed: Vec<Statement> = Vec::new();
    while body.len() > 0
        invariant
            body@.len() + reversed@.len() == nodes.len(),
            body@ == nodes.take(body@.len() as int),
            forall|i: int|
                0 <= i < reversed@.len() ==> (#[trigger] reversed@[i]).node == nodes[nodes.len() - 1
                    - i] && !reversed@[i].included,
        decreases body.len(),
    {
        let node = body.pop().unwrap();
        reversed.push(Statement::new(node));
    }
    let mut r: Vec<Statement> = Vec::new();
    let ghost all = reversed@;
    while reversed.len() > 0
        invariant
            all.len() == nodes.len(),
            reversed@.len() + r@.len() == all.len(),
            reversed@ == all.take(reversed@.len() as int),
            forall|i: int|
                0 <= i < all.len() ==> (#[trigger] all[i]).node == nodes[nodes.len() - 1 - i]
                    && !all[i].included,
            forall|i: int| 0 <= i < r@.len() ==> (#[trigger] r@[i]).node == nodes[i] && !r@[i].included,
        decreases reversed.len(),
    {
        let statement = reversed.pop().unwrap();
        assert(statement == all[all.len() - 1 - r@.len()]);
        r.push(statement);
    }
    r
}

/// The resolved id of a specifier: the path that the resolver found for it, or, where it
/// found none, the specifier itself as an external module.
pub fn resolved_or_external(specifier: &str, found: Option<String>) -> (r: ResolvedId)
    ensures
        match found {
            Some(path) => r.id == path && !r.external,
            None => r.id@ == specifier@ && r.external,
        },
{
    match found {
        Some(path) => ResolvedId { id: path, external: false },
        None => ResolvedId::new(specifier, true),
    }
}

/// The module or external module that a resolved id stands for.
pub fn resove_module_by_resolved_id(resolved: ResolvedId) -> (r: ModOrExt)
    ensures
        match r {
            ModOrExt::Ext(e) => resolved.external && e.id == resolved.id,
            ModOrExt::Mod(m) => !resolved.external && m.id == resolved.id && m.source@.len() == 0
                && m.statements@.len() == 0,
        },
{
    if resolved.external {
        ModOrExt::Ext(ExternalModule::new(resolved.id))
    } else {
        ModOrExt::Mod(Module::new(resolved.id))
    }
}

/// The dependency graph as the graph library holds it: nodes and directed edges, each
/// with its weight.
#[verifier::external_body]
pub struct DepGraph {
    inner: petgraph::graph::Graph<DepNode, Rel>,
}

/// The weights of the nodes of a dependency graph, in the order of their indices.
pub uninterp spec fn graph_nodes(g: DepGraph) -> Seq<
    DepNode,
>;

/// The edges of a dependency graph in the order of their indices: the index of the node
/// at the start, the index of the node at the end, and the weight.
pub uninterp spec fn graph_edges(g: DepGraph) -> Seq<
    (u32, u32, Rel),
>;

/// `petgraph::graph::Graph::new`: a graph without nodes and edges.
#[verifier::external_body]
fn new_graph() -> (g: DepGraph)
    ensures
        graph_nodes(g).len() == 0,
        graph_edges(g).len() == 0,
{
    DepGraph { inner: petgraph::graph::Graph::new() }
}

/// `petgraph::graph::Graph::node_count`: the number of nodes.
#[verifier::external_body]
fn node_count(g: &DepGraph) -> (n: usize)
    ensures
        n == graph_nodes(*g).len(),
{
    g.inner.node_count()
}

/// `petgraph::graph::Graph::try_add_node`: the node is added behind the nodes that are
/// there and gets the next index, unless the indices have run out; then nothing changes.
/// An index is below the greatest number of its type, and while the number of nodes is
/// below that number the node is added. The edges stay.
#[verifier::external_body]
fn try_add_node(g: &mut DepGraph, weight: DepNode) -> (r:
    Option<u32>)
    ensures
        graph_nodes(*old(g)).len() < u32::MAX ==> r is Some,
        match r {
            Some(i) => i == graph_nodes(*old(g)).len() && i < u32::MAX && graph_nodes(*final(g))
                == graph_nodes(*old(g)).push(weight),
            None => graph_nodes(*final(g)) == graph_nodes(*old(g)),
        },
        graph_edges(*final(g)) == graph_edges(*old(g)),
{
    g.inner.try_add_node(weight).ok().map(|index| index.index() as u32)
}

/// `petgraph::graph::Graph::try_add_edge`: the edge is added behind the edges that are
/// there, unless one of its nodes does not exist or the indices have run out; then
/// nothing changes. Between nodes that exist the edge is added while the number of edges
/// is below the greatest number of the index type. The nodes stay.
#[verifier::external_body]
fn try_add_edge(
    g: &mut DepGraph,
    from: u32,
    to: u32,
    weight: Rel,
) -> (added: bool)
    ensures
        graph_nodes(*final(g)) == graph_nodes(*old(g)),
        from < graph_nodes(*old(g)).len() && to < graph_nodes(*old(g)).len() && graph_edges(
            *old(g),
        ).len() < u32::MAX ==> added,
        added ==> from < graph_nodes(*old(g)).len() && to < graph_nodes(*old(g)).len()
            && graph_edges(*final(g)) == graph_edges(*old(g)).push((from, to, weight)),
        !added ==> graph_edges(*final(g)) == graph_edges(*old(g)),
{
    let from = petgraph::graph::NodeIndex::new(from as usize);
    let to = petgraph::graph::NodeIndex::new(to as usize);
    g.inner.try_add_edge(from, to, weight).is_ok()
}

/// `order` holds each of the `n` nodes once, and each node before the nodes that its
/// edges lead to.
pub open spec fn is_topological(order: Seq<u32>, n: nat, edges: Seq<(u32, u32, Rel)>) -> bool {
    &&& order.len() == n
    &&& order.no_duplicates()
    &&& forall|k: int| 0 <= k < order.len() ==> (#[trigger] order[k]) < n
    &&& forall|e: int, i: int, j: int|
        0 <= e < edges.len() && 0 <= i < order.len() && 0 <= j < order.len() && (
        #[trigger] order[i]) == (#[trigger] edges[e]).0 && (#[trigger] order[j]) == edges[e].1
            ==> i < j
}

/// `petgraph::algo::toposort`: the nodes in topological order, each node before its
/// successors, or, where the graph has a cycle and so no such order, a node of the graph
/// that lies on a cycle.
#[verifier::external_body]
fn toposort(g: &DepGraph) -> (r: Result<Vec<u32>, u32>)
    ensures
        match r {
            Ok(order) => is_topological(order@, graph_nodes(*g).len(), graph_edges(*g)),
            Err(node) => node < graph_nodes(*g).len() && forall|order: Seq<u32>|
                !#[trigger] is_topological(order, graph_nodes(*g).len(), graph_edges(*g)),
        },
{
    match petgraph::algo::toposort(&g.inner, None) {
        Ok(order) => Ok(order.into_iter().map(|index| index.index() as u32).collect()),
        Err(cycle) => Err(cycle.node_id().index() as u32),
    }
}

/// The modules of a build cannot be ordered: the module at `node` imports itself by way
/// of others.
#[derive(Debug, Clone, Copy, PartialEq, Eq, Structural)]
pub struct ImportCycle {
    pub node: u32,
}

/// The dependency graph of a build with its entries and, once they are sorted, its modules
/// in order.
pub struct GraphContainer {
    pub entry_path: String,
    pub graph: DepGraph,
    pub entries: Vec<u32>,
    pub ordered_modules: Vec<u32>,
}

/// What became of a module that was to enter the graph.
#[derive(Debug, Clone, Copy, PartialEq, Eq, Structural)]
pub enum Analysed {
    /// The module is at `node`; `first_seen` says whether it entered just now, so that
    /// its statements are still to be analysed.
    Node { node: u32, first_seen: bool },
    /// The graph holds as many nodes or edges as it can, or the parent is no node of it.
    Refused,
}

/// Whether `node` is named as a node of a graph of `nodes` nodes without being one.
pub open spec fn refused_parent(nodes: nat, node: Option<u32>) -> bool {
    match node {
        Some(n) => n >= nodes,
        None => false,
    }
}

/// The node of the module `id` among the modules seen so far.
pub open spec fn seen_node(seen: Seq<(String, u32)>, id: Seq<char>) -> Option<u32> {
    crate::table::lookup(seen.map_values(|pair: (String, u32)| (pair.0@, pair.1)), id)
}

fn find_seen(seen: &Vec<(String, u32)>, id: &str) -> (r: Option<u32>)
    ensures
        r == seen_node(seen@, id@),
{
    let ghost keyed = seen@.map_values(|pair: (String, u32)| (pair.0@, pair.1));
    let mut i: usize = 0;
    while i < seen.len()
        invariant
            i <= seen.len(),
            keyed == seen@.map_values(|pair: (String, u32)| (pair.0@, pair.1)),
            forall|j: int| 0 <= j < i ==> (#[trigger] keyed[j]).0 != id@,
        decreases seen.len() - i,
    {
        assert(keyed[i as int] == (seen[i as int].0@, seen[i as int].1));
        if crate::ident::str_eq(seen[i].0.as_str(), id) {
            proof {
                crate::table::lemma_key_index_first(keyed, id@, i as int);
            }
            return Some(seen[i].1);
        }
        i += 1;
    }
    proof {
        crate::table::lemma_key_index_none(keyed, id@);
    }
    None
}

/// `petgraph::graph::Graph::raw_edges`: the edges in the order of their indices, each by
/// the indices of the nodes at its start and at its end.
#[verifier::external_body]
fn edge_ends(g: &DepGraph) -> (r: Vec<(u32, u32)>)
    ensures
        r@.len() == graph_edges(*g).len(),
        forall|i: int|
            0 <= i < r@.len() ==> #[trigger] r@[i] == (graph_edges(*g)[i].0, graph_edges(*g)[i].1),
{
    let edges = g.inner.raw_edges().iter();
    edges.map(|edge| (edge.source().index() as u32, edge.target().index() as u32)).collect()
}

impl GraphContainer {
    /// The number of modules and external modules in the graph.
    pub fn node_count(&self) -> (n: usize)
        ensures
            n == graph_nodes(self.graph).len(),
    {
        node_count(&self.graph)
    }

    /// The edges of the graph in the order in which they were added, each by the nodes at
    /// its start and at its end.
    pub fn edges(&self) -> (r: Vec<(u32, u32)>)
        ensures
            r@.len() == graph_edges(self.graph).len(),
            forall|i: int|
                0 <= i < r@.len() ==> #[trigger] r@[i] == (
                    graph_edges(self.graph)[i].0,
                    graph_edges(self.graph)[i].1,
                ),
    {
        edge_ends(&self.graph)
    }

    /// The container of a build that starts from `entry`: its graph is empty.
    pub fn new(entry: String) -> (r: Self)
        ensures
            r.entry_path == entry,
            graph_nodes(r.graph).len() == 0,
            graph_edges(r.graph).len() == 0,
            r.entries@.len() == 0,
            r.ordered_modules@.len() == 0,
    {
        GraphContainer {
            entry_path: entry,
            graph: new_graph(),
            entries: Vec::new(),
            ordered_modules: Vec::new(),
        }
    }

    /// Sorts the modules so that each comes before the modules that it refers to. Where
    /// the graph has a cycle there is no such order, and the order is left as it was.
    pub fn sort_modules(&mut self) -> (r: Result<(), ImportCycle>)
        ensures
            final(self).graph == old(self).graph,
            final(self).entries == old(self).entries,
            final(self).entry_path == old(self).entry_path,
            match r {
                Ok(_) => is_topological(
                    final(self).ordered_modules@,
                    graph_nodes(old(self).graph).len(),
                    graph_edges(old(self).graph),
                ),
Err(cycle) => cycle.node < graph_nodes(old(self).graph).len() && final(self).ordered_modules
                    == old(self).ordered_modules && forall|order: Seq<u32>|
                    !#[trigger] is_topological(
                        order,
                        graph_nodes(old(self).graph).len(),
                        graph_edges(old(self).graph),
                    ),
            },
    {
        match toposort(&self.graph) {
            Ok(order) => {
                self.ordered_modules = order;
                Ok(())
            },
            Err(node) => Err(ImportCycle { node }),
        }
    }
}

/// What becomes of a graph into which the external module `module` is to be put with an
/// edge from `parent`. Where the outcome is a node, the module is the new last node and
/// the edge the new last edge. The graph refuses only a parent that is no node of it, or
/// for want of room; then it has no new edge, and the module is in it only where there
/// was room for the node and none for the edge.
pub open spec fn external_analysed(
    before: DepGraph,
    after: DepGraph,
    module: ExternalModule,
    parent: u32,
    rel: Rel,
    r: Analysed,
) -> bool {
    let nodes = graph_nodes(before);
    let edges = graph_edges(before);
    match r {
        Analysed::Node { node, first_seen } => {
            &&& first_seen
            &&& node == nodes.len()
            &&& parent < node
            &&& graph_nodes(after) == nodes.push(DepNode::Ext(module))
            &&& graph_edges(after) == edges.push((parent, node, rel))
        },
        Analysed::Refused => {
            &&& graph_edges(after) == edges
            &&& parent >= nodes.len() || nodes.len() >= u32::MAX || edges.len() >= u32::MAX
            &&& graph_nodes(after) == nodes || (parent < nodes.len() && edges.len() >= u32::MAX
                && graph_nodes(after) == nodes.push(DepNode::Ext(module)))
        },
    }
}

/// What becomes of a graph, and of the list of the modules seen, when the module `module`
/// is to be put into the graph with an edge from `parent`, if there is one. Where the
/// outcome is a node, it is the node under which the module was seen before, or else the
/// new last node, under which the module is then listed; the parent is a node of the graph
/// and the edge the new last edge.
/// The graph refuses only a parent or a listed node that is no node of it, or for want of
/// room; then it has no new edge, and the module is in it and listed only where it was
/// not seen before and there was room for the node and none for the edge.
pub open spec fn module_analysed(
    before: DepGraph,
    seen_before: Seq<(String, u32)>,
    after: DepGraph,
    seen_after: Seq<(String, u32)>,
    module: Module,
    parent: Option<u32>,
    rel: Rel,
    r: Analysed,
) -> bool {
    let nodes = graph_nodes(before);
    let edges = graph_edges(before);
    let known = seen_node(seen_before, module.id@);
    match r {
        Analysed::Node { node, first_seen } => {
            &&& !refused_parent(nodes.len(), parent)
            &&& parent is Some || first_seen ==> node < graph_nodes(after).len()
            &&& first_seen == (known is None)
            &&& match known {
                Some(listed) => node == listed && seen_after == seen_before && graph_nodes(after)
                    == nodes,
                None => node == nodes.len() && seen_after == seen_before.push((module.id, node))
                    && graph_nodes(after) == nodes.push(DepNode::Mod(module)),
            }
            &&& graph_edges(after) == match parent {
                Some(p) => edges.push((p, node, rel)),
                None => edges,
            }
        },
        Analysed::Refused => {
            &&& graph_edges(after) == edges
            &&& refused_parent(nodes.len(), parent) || nodes.len() >= u32::MAX || edges.len()
                >= u32::MAX || (parent is Some && refused_parent(nodes.len(), known))
            &&& (graph_nodes(after) == nodes && seen_after == seen_before) || (known is None
                && parent is Some && !refused_parent(nodes.len(), parent) && edges.len()
                >= u32::MAX && nodes.len() < u32::MAX && graph_nodes(after) == nodes.push(
                DepNode::Mod(module),
            ) && seen_after == seen_before.push((module.id, nodes.len() as u32)))
        },
    }
}

/// Puts the external module `module` into the graph as a node of its own, with an edge
/// from `parent` that says how `parent` refers to it.
pub fn analyse_external_module(container: &mut GraphContainer, module: ExternalModule, parent: u32, rel: Rel) -> (r:
    Analysed)
    ensures
        final(container).entries == old(container).entries,
        final(container).ordered_modules == old(container).ordered_modules,
        final(container).entry_path == old(container).entry_path,
        external_analysed(old(container).graph, final(container).graph, module, parent, rel, r),
{
    if parent as usize >= node_count(&container.graph) {
        return Analysed::Refused;
    }
    match try_add_node(&mut container.graph, DepNode::Ext(module)) {
        Some(node) => {
            if try_add_edge(&mut container.graph, parent, node, rel) {
                Analysed::Node { node, first_seen: true }
            } else {
                Analysed::Refused
            }
        },
        None => Analysed::Refused,
    }
}

/// Puts the module `module` into the graph unless a module of its id was seen before, and
/// adds an edge from `parent`, if there is one, that says how `parent` refers to it. The
/// statements of a module that has just entered are still to be analysed.
pub fn analyse_module(
    container: &mut GraphContainer,
    seen: &mut Vec<(String, u32)>,
    module: Module,
    parent: Option<u32>,
    rel: Rel,
) -> (r: Analysed)
    ensures
        final(container).entries == old(container).entries,
        final(container).ordered_modules == old(container).ordered_modules,
        final(container).entry_path == old(container).entry_path,
        module_analysed(
            old(container).graph,
            old(seen)@,
            final(container).graph,
            final(seen)@,
            module,
            parent,
            rel,
            r,
        ),
{
    match parent {
        Some(p) => {
            if p as usize >= node_count(&container.graph) {
                return Analysed::Refused;
            }
        },
        None => {},
    }
    let known = find_seen(seen, module.id.as_str());
    let (node, first_seen) = match known {
        Some(node) => (node, false),
        None => {
            let id = module.id.clone();
            match try_add_node(&mut container.graph, DepNode::Mod(module)) {
                Some(node) => {
                    seen.push((id, node));
                    (node, true)
                },
                None => {
                    return Analysed::Refused;
                },
            }
        },
    };
    match parent {
        Some(p) => {
            if !try_add_edge(&mut container.graph, p, node, rel) {
                return Analysed::Refused;
            }
        },
        None => {},
    }
    Analysed::Node { node, first_seen }
}

/// Puts what a resolved id stands for into the graph, with an edge from `parent`: an
/// external module as a node of its own, a module unless it was seen before. The list of
/// the modules seen is for modules only.
pub fn analyse_mod_or_ext(
    container: &mut GraphContainer,
    seen: &mut Vec<(String, u32)>,
    mod_or_ext: ModOrExt,
    parent: u32,
    rel: Rel,
) -> (r: Analysed)
    ensures
        final(container).entries == old(container).entries,
        final(container).ordered_modules == old(container).ordered_modules,
        final(container).entry_path == old(container).entry_path,
        match mod_or_ext {
            ModOrExt::Ext(module) => final(seen)@ == old(seen)@ && external_analysed(
                old(container).graph,
                final(container).graph,
                module,
                parent,
                rel,
                r,
            ),
            ModOrExt::Mod(module) => module_analysed(
                old(container).graph,
                old(seen)@,
                final(container).graph,
                final(seen)@,
                module,
                Some(parent),
                rel,
                r,
            ),
        },
{
    match mod_or_ext {
        ModOrExt::Ext(external) => analyse_external_module(container, external, parent, rel),
        ModOrExt::Mod(module) => analyse_module(container, seen, module, Some(parent), rel),
    }
}

/// What the statement `statement` asks of other modules: each specifier that it names
/// with the way in which it refers to it, in the order in which they are to be resolved.
pub fn analyse_statement(statement: Statement) -> (r: Vec<(String, Rel)>)
    ensures
        match statement.node {
            StatementNode::Import(desc) => r@ == seq![(desc.source, Rel::Import(desc))],
            StatementNode::ReExport(desc) => r@ == seq![(desc.source, Rel::ReExport(desc))],
            StatementNode::ExportAll { source } => r@ == seq![(source, Rel::ReExportAll)],
            StatementNode::Other { dynamic_imports } => r@.len() == dynamic_imports@.len()
                && forall|i: int|
                0 <= i < r@.len() ==> #[trigger] r@[i] == (
                    dynamic_imports@[i].argument,
                    Rel::DynImport(dynamic_imports@[i]),
                ),
        },
{
    let mut r: Vec<(String, Rel)> = Vec::new();
    match statement.node {
        StatementNode::Import(desc) => {
            let source = desc.source.clone();
            r.push((source, Rel::Import(desc)));
        },
        StatementNode::ReExport(desc) => {
            let source = desc.source.clone();
            r.push((source, Rel::ReExport(desc)));
        },
        StatementNode::ExportAll { source } => {
            r.push((source, Rel::ReExportAll));
        },
        StatementNode::Other { dynamic_imports } => {
            let mut rest = dynamic_imports;
            let ghost all = rest@;
            let mut reversed: Vec<(String, Rel)> = Vec::new();
            while rest.len() > 0
                invariant
                    rest@.len() + reversed@.len() == all.len(),
                    rest@ == all.take(rest@.len() as int),
                    forall|i: int|
                        0 <= i < reversed@.len() ==> #[trigger] reversed@[i] == (
                            all[all.len() - 1 - i].argument,
                            Rel::DynImport(all[all.len() - 1 - i]),
                        ),
                decreases rest.len(),
            {
                let desc = rest.pop().unwrap();
                let argument = desc.argument.clone();
                reversed.push((argument, Rel::DynImport(desc)));
            }
            let ghost turned = reversed@;
            while reversed.len() > 0
                invariant
                    turned.len() == all.len(),
                    reversed@.len() + r@.len() == turned.len(),
                    reversed@ == turned.take(reversed@.len() as int),
                    forall|i: int|
                        0 <= i < turned.len() ==> #[trigger] turned[i] == (
                            all[all.len() - 1 - i].argument,
                            Rel::DynImport(all[all.len() - 1 - i]),
                        ),
                    forall|i: int|
                        0 <= i < r@.len() ==> #[trigger] r@[i] == (all[i].argument, Rel::DynImport(all[i])),
                decreases reversed.len(),
            {
                let request = reversed.pop().unwrap();
                assert(request == turned[turned.len() - 1 - r@.len()]);
                r.push(request);
            }
        },
    }
    r
}

} // verus!
