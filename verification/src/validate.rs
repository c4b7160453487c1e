//! Validation: from an editable graph to one that can be evaluated.
//!
//! Every structural and type error is caught here, all of them at once, so that evaluation
//! can be total: once a graph compiles, evaluating it cannot fail.
use crate::graph::{error_views, report, Direction, EdgeView, ErrorView, Graph, GraphError, GraphView, NodeId, PortKey, PortRef};
use crate::infer::{infer, port_types, type_errors, PortTypes};
use crate::node::{port_views, ports, PortSpec, PortView};
use crate::order::{is_order, numbers, on_cycle, ordered_is_acyclic, pairs, sort, toposorted};
use crate::ordmap::OrdMap;
use crate::text::Text;
use crate::units::Quantity;
use vstd::prelude::*;

verus! {

// --- Structure -------------------------------------------------------------------------------

/// Where the walk over the connections has got to: which single inputs already have a
/// producer, and what was wrong so far.
#[verifier::ext_equal]
pub struct Scan {
    pub driven: Set<PortKey>,
    pub errors: Seq<ErrorView>,
}

impl Scan {
    /// With one more error.
    pub open spec fn push(self, e: ErrorView) -> Scan {
        Scan { errors: self.errors.push(e), ..self }
    }
}

/// Whether a reference names a port at all.
pub open spec fn is_port(g: GraphView, r: PortKey) -> bool {
    g.input(r) is Some || g.output(r) is Some
}

/// What is wrong with where a connection starts, if anything.
pub open spec fn wrong_start(g: GraphView, r: PortKey) -> Option<ErrorView> {
    if !g.nodes.dom().contains(r.node) {
        Some(ErrorView::UnknownNode(r.node))
    } else if !is_port(g, r) {
        Some(ErrorView::UnknownPort(r.node, r.port))
    } else if g.output(r) is None {
        Some(ErrorView::NotAnOutput(r))
    } else {
        None
    }
}

/// What is wrong with where a connection ends, if anything.
pub open spec fn wrong_end(g: GraphView, r: PortKey) -> Option<ErrorView> {
    if !g.nodes.dom().contains(r.node) {
        Some(ErrorView::UnknownNode(r.node))
    } else if !is_port(g, r) {
        Some(ErrorView::UnknownPort(r.node, r.port))
    } else if g.input(r) is None {
        Some(ErrorView::NotAnInput(r))
    } else {
        None
    }
}

/// What is wrong with one connection: both of its ends are looked at.
pub open spec fn scan_edge(g: GraphView, s: Scan, e: EdgeView) -> Scan {
    match (wrong_start(g, e.from), wrong_end(g, e.to)) {
        (Some(a), Some(b)) => s.push(a).push(b),
        (Some(a), None) => s.push(a),
        (None, Some(b)) => s.push(b),
        (None, None) => if (g.input(e.to)->0).variadic {
            // A variadic input accepts many producers; a plain input accepts exactly one.
            s
        } else if s.driven.contains(e.to) {
            s.push(ErrorView::InputOverSubscribed(e.to))
        } else {
            Scan { driven: s.driven.insert(e.to), ..s }
        },
    }
}

/// What is wrong with the first `n` connections.
pub open spec fn scanned(g: GraphView, n: nat) -> Scan
    decreases n,
{
    if n == 0 {
        Scan { driven: Set::empty(), errors: Seq::empty() }
    } else {
        scan_edge(g, scanned(g, (n - 1) as nat), g.edges[n - 1])
    }
}

/// The required inputs of a node that nothing feeds, among its first `n`.
pub open spec fn missing_at(g: GraphView, id: Text, inputs: Seq<PortView>, n: nat) -> Seq<ErrorView>
    decreases n,
{
    if n == 0 {
        Seq::empty()
    } else {
        let before = missing_at(g, id, inputs, (n - 1) as nat);
        let r = PortKey { node: id, port: inputs[n - 1].key };
        if inputs[n - 1].required && !g.connected(r) {
            before.push(ErrorView::MissingInput(r))
        } else {
            before
        }
    }
}

/// The required inputs that nothing feeds, over the first `n` nodes.
pub open spec fn missing(g: GraphView, n: nat) -> Seq<ErrorView>
    decreases n,
{
    if n == 0 {
        Seq::empty()
    } else {
        let id = g.ids[n - 1];
        let inputs = ports(g.nodes[id].kind).inputs;
        missing(g, (n - 1) as nat) + missing_at(g, id, inputs, inputs.len())
    }
}

/// Everything wrong with a graph but cycles: structure, then missing inputs, then types.
pub open spec fn problems(g: GraphView) -> Seq<ErrorView> {
    scanned(g, g.edges.len()).errors + missing(g, g.ids.len()) + type_errors(g)
}

// --- Order -------------------------------------------------------------------------------------

/// The dependencies among the first `n` connections, between the positions of nodes.
///
/// An edge leaving a delayed port carries a value from before this tick, so it imposes no
/// ordering. That is what allows feedback, a tachometer steering the fan it measures,
/// without the graph being a cycle.
pub open spec fn dependencies(g: GraphView, n: nat) -> Seq<(int, int)>
    decreases n,
{
    if n == 0 {
        Seq::empty()
    } else {
        let before = dependencies(g, (n - 1) as nat);
        let e = g.edges[n - 1];
        if g.delayed(e.from) || !g.nodes.dom().contains(e.from.node) || !g.nodes.dom().contains(
            e.to.node,
        ) {
            before
        } else {
            before.push((g.ids.index_of(e.from.node), g.ids.index_of(e.to.node)))
        }
    }
}

/// All dependencies of a graph.
pub open spec fn all_dependencies(g: GraphView) -> Seq<(int, int)> {
    dependencies(g, g.edges.len())
}

/// The nodes in evaluation order, or a node on a cycle.
pub open spec fn evaluation_order(g: GraphView) -> Result<Seq<Text>, Text> {
    match toposorted(g.ids.len(), all_dependencies(g)) {
        Ok(order) => Ok(Seq::new(order.len(), |i: int| g.ids[order[i]])),
        Err(x) => Err(g.ids[x]),
    }
}

/// Everything wrong with a graph.
pub open spec fn all_errors(g: GraphView) -> Seq<ErrorView> {
    match evaluation_order(g) {
        Ok(_) => problems(g),
        Err(node) => problems(g).push(ErrorView::Cycle(node)),
    }
}

/// Whether there is nothing wrong with a graph: no structural or type error, and no cycle.
pub open spec fn compiles(g: GraphView) -> bool {
    problems(g).len() == 0 && forall|x: int| !#[trigger] on_cycle(all_dependencies(g), x)
}

/// Whether a list of nodes has each of a graph's nodes once, each after what it depends on.
pub open spec fn respects(g: GraphView, order: Seq<Text>) -> bool {
    &&& order.no_duplicates()
    &&& forall|id: Text| #[trigger] order.contains(id) <==> g.nodes.dom().contains(id)
    &&& forall|i: int|
        0 <= i < g.edges.len() && !g.delayed((#[trigger] g.edges[i]).from)
            && g.nodes.dom().contains(g.edges[i].from.node) && g.nodes.dom().contains(
            g.edges[i].to.node,
        ) ==> order.index_of(g.edges[i].from.node) < order.index_of(g.edges[i].to.node)
}

/// What a list of node ids says.
pub open spec fn id_views(ids: Seq<NodeId>) -> Seq<Text> {
    Seq::new(ids.len(), |i: int| ids[i]@)
}

proof fn lemma_dependencies(g: GraphView, n: nat)
    requires
        g.wf(),
        n <= g.edges.len(),
    ensures
        dependencies(g, n).len() <= n,
        forall|k: int|
            0 <= k < dependencies(g, n).len() ==> 0 <= (#[trigger] dependencies(g, n)[k]).0
                < g.ids.len() && 0 <= dependencies(g, n)[k].1 < g.ids.len(),
        forall|i: int|
            0 <= i < n && !g.delayed((#[trigger] g.edges[i]).from) && g.nodes.dom().contains(
                g.edges[i].from.node,
            ) && g.nodes.dom().contains(g.edges[i].to.node) ==> dependencies(g, n).contains(
                (g.ids.index_of(g.edges[i].from.node), g.ids.index_of(g.edges[i].to.node)),
            ),
    decreases n,
{
    if n > 0 {
        let m = (n - 1) as nat;
        lemma_dependencies(g, m);
        let e = g.edges[n - 1];
        let before = dependencies(g, m);
        let after = dependencies(g, n);
        assert forall|i: int|
            0 <= i < n && !g.delayed((#[trigger] g.edges[i]).from) && g.nodes.dom().contains(
                g.edges[i].from.node,
            ) && g.nodes.dom().contains(g.edges[i].to.node) implies after.contains(
            (g.ids.index_of(g.edges[i].from.node), g.ids.index_of(g.edges[i].to.node)),
        ) by {
            let p = (g.ids.index_of(g.edges[i].from.node), g.ids.index_of(g.edges[i].to.node));
            if i < n - 1 {
                let k = choose|k: int| 0 <= k < before.len() && before[k] == p;
                assert(after[k] == p);
            } else {
                assert(after[after.len() - 1] == p);
            }
        }
    }
}

proof fn lemma_respects(g: GraphView, order: Seq<int>)
    requires
        g.wf(),
        is_order(g.ids.len(), all_dependencies(g), order),
    ensures
        respects(g, Seq::new(order.len(), |i: int| g.ids[order[i]])),
{
    let named = Seq::new(order.len(), |i: int| g.ids[order[i]]);
    let deps = all_dependencies(g);
    assert forall|i: int| 0 <= i < order.len() implies 0 <= #[trigger] order[i] < g.ids.len() by {
        assert(order.contains(order[i]));
    }
    assert forall|i: int, j: int| 0 <= i < named.len() && 0 <= j < named.len() && i != j implies named[i]
        != named[j] by {
        assert(order[i] != order[j]);
    }
    assert forall|id: Text| #[trigger] named.contains(id) <==> g.nodes.dom().contains(id) by {
        if named.contains(id) {
            let i = choose|i: int| 0 <= i < named.len() && named[i] == id;
            assert(g.nodes.dom().contains(g.ids[order[i]]));
        }
        if g.nodes.dom().contains(id) {
            let v = g.ids.index_of(id);
            assert(g.ids[v] == id);
            assert(order.contains(v));
            let i = order.index_of(v);
            assert(named[i] == id);
        }
    }
    lemma_dependencies(g, g.edges.len());
    assert forall|i: int|
        0 <= i < g.edges.len() && !g.delayed((#[trigger] g.edges[i]).from) && g.nodes.dom().contains(
            g.edges[i].from.node,
        ) && g.nodes.dom().contains(g.edges[i].to.node) implies named.index_of(g.edges[i].from.node)
        < named.index_of(g.edges[i].to.node) by {
        let a = g.ids.index_of(g.edges[i].from.node);
        let b = g.ids.index_of(g.edges[i].to.node);
        assert(g.ids[a] == g.edges[i].from.node);
        assert(g.ids[b] == g.edges[i].to.node);
        let k = choose|k: int| 0 <= k < deps.len() && deps[k] == (a, b);
        assert(order.index_of(deps[k].0) < order.index_of(deps[k].1));
        assert(order.contains(a) && order.contains(b));
        lemma_named_index(g, order, named, a);
        lemma_named_index(g, order, named, b);
    }
}

proof fn lemma_named_index(g: GraphView, order: Seq<int>, named: Seq<Text>, v: int)
    requires
        named == Seq::new(order.len(), |i: int| g.ids[order[i]]),
        named.no_duplicates(),
        order.no_duplicates(),
        order.contains(v),
    ensures
        named.index_of(g.ids[v]) == order.index_of(v),
{
    let i = order.index_of(v);
    assert(order[i] == v);
    assert(named[i] == g.ids[v]);
    assert(named.contains(g.ids[v]));
    let j = named.index_of(g.ids[v]);
    assert(named[j] == named[i]);
}

// --- Compiled graphs -----------------------------------------------------------------------------

/// A validated graph plus its evaluation order. Having one is proof that the graph is
/// structurally sound, correctly typed and acyclic.
#[derive(Debug)]
pub struct CompiledGraph {
    graph: Graph,
    order: Vec<NodeId>,
    types: PortTypes,
}

/// A compiled graph, as contracts speak of it.
#[verifier::ext_equal]
pub struct CompiledView {
    pub graph: GraphView,
    pub order: Seq<Text>,
    pub types: Map<PortKey, Option<Quantity>>,
}

impl View for CompiledGraph {
    type V = CompiledView;

    closed spec fn view(&self) -> CompiledView {
        CompiledView { graph: self.graph@, order: id_views(self.order@), types: self.types@ }
    }
}

impl CompiledView {
    /// What having compiled means: nothing is wrong with the graph, every port's type is the
    /// inferred one, and the order has each node once, after what it depends on.
    pub open spec fn sound(self) -> bool {
        &&& self.graph.wf()
        &&& problems(self.graph).len() == 0
        &&& self.types == port_types(self.graph)
        &&& respects(self.graph, self.order)
    }
}

impl CompiledGraph {
    /// A compiled graph is sound.
    #[verifier::type_invariant]
    pub closed spec fn wf(&self) -> bool {
        self@.sound()
    }

    /// What having compiled means.
    pub proof fn lemma_sound(&self)
        requires
            self.wf(),
        ensures
            self@.sound(),
    {
    }

    /// The graph this was compiled from.
    pub fn graph(&self) -> (r: &Graph)
        ensures
            r@ == self@.graph,
    {
        &self.graph
    }

    /// The nodes in evaluation order.
    pub fn order(&self) -> (r: &Vec<NodeId>)
        ensures
            id_views(r@) == self@.order,
    {
        &self.order
    }

    /// The inferred type of every port. `None` means still generic.
    pub fn types(&self) -> (r: &PortTypes)
        ensures
            r@ == self@.types,
    {
        &self.types
    }
}

/// Result of validating a graph: either a compiled, evaluable form or every error found.
pub type ValidationResult = Result<CompiledGraph, Vec<GraphError>>;

/// Checks one connection.
fn check_edge(
    graph: &Graph,
    from: &PortRef,
    to: &PortRef,
    driven: &mut OrdMap<PortRef, ()>,
    errors: &mut Vec<GraphError>,
)
    ensures
        (Scan { driven: final(driven)@.dom(), errors: error_views(final(errors)@) }) == scan_edge(
            graph@,
            Scan { driven: old(driven)@.dom(), errors: error_views(old(errors)@) },
            EdgeView { from: from@, to: to@ },
        ),
{
    let start_right = check_start(graph, from, errors);
    let (end_right, variadic) = check_end(graph, to, errors);
    if start_right && end_right && !variadic {
        let ghost before = driven@.dom();
        if driven.insert(to.copy(), ()).is_some() {
            assert(driven@.dom() =~= before);
            report(errors, GraphError::InputOverSubscribed(to.copy()));
        } else {
            assert(driven@.dom() =~= before.insert(to@));
        }
    }
}

/// Checks where a connection starts.
fn check_start(graph: &Graph, from: &PortRef, errors: &mut Vec<GraphError>) -> (r: bool)
    ensures
        r == (wrong_start(graph@, from@) is None),
        error_views(final(errors)@) == match wrong_start(graph@, from@) {
            Some(e) => error_views(old(errors)@).push(e),
            None => error_views(old(errors)@),
        },
{
    if !graph.nodes.contains_key(&from.node) {
        report(errors, GraphError::UnknownNode(from.node.copy()));
        return false;
    }
    match graph.port_spec(from) {
        None => {
            report(errors, GraphError::UnknownPort(from.node.copy(), from.port.clone()));
            false
        },
        Some((_, dir)) => {
            if dir != Direction::Out {
                report(errors, GraphError::NotAnOutput { edge_from: from.copy() });
                false
            } else {
                true
            }
        },
    }
}

/// Checks where a connection ends, and says whether that accepts many producers.
fn check_end(graph: &Graph, to: &PortRef, errors: &mut Vec<GraphError>) -> (r: (bool, bool))
    ensures
        r.0 == (wrong_end(graph@, to@) is None),
        r.0 ==> r.1 == (graph@.input(to@)->0).variadic,
        error_views(final(errors)@) == match wrong_end(graph@, to@) {
            Some(e) => error_views(old(errors)@).push(e),
            None => error_views(old(errors)@),
        },
{
    if !graph.nodes.contains_key(&to.node) {
        report(errors, GraphError::UnknownNode(to.node.copy()));
        return (false, false);
    }
    match graph.port_spec(to) {
        None => {
            report(errors, GraphError::UnknownPort(to.node.copy(), to.port.clone()));
            (false, false)
        },
        Some((spec, dir)) => {
            if dir != Direction::In {
                report(errors, GraphError::NotAnInput { edge_to: to.copy() });
                (false, false)
            } else {
                (true, spec.variadic)
            }
        },
    }
}

/// Checks the required inputs of one node.
fn check_inputs(graph: &Graph, id: &NodeId, inputs: &Vec<PortSpec>, errors: &mut Vec<GraphError>)
    ensures
        error_views(final(errors)@) == error_views(old(errors)@) + missing_at(
            graph@,
            id@,
            port_views(inputs@),
            inputs@.len(),
        ),
{
    let ghost start = error_views(errors@);
    let ghost views = port_views(inputs@);
    let n: usize = inputs.len();
    assert(start + Seq::<ErrorView>::empty() =~= start);
    for i in 0..n
        invariant
            n == inputs@.len(),
            views == port_views(inputs@),
            error_views(errors@) == start + missing_at(graph@, id@, views, i as nat),
    {
        let port = inputs[i];
        assert(views[i as int] == port@);
        let ghost before = missing_at(graph@, id@, views, i as nat);
        if port.required {
            let r = PortRef::new(id.0.as_str(), port.key);
            if !graph.is_connected(&r) {
                let ghost e = ErrorView::MissingInput(r@);
                report(errors, GraphError::MissingInput(r));
                assert(error_views(errors@) =~= start + before.push(e));
            }
        }
    }
}

impl Graph {
    /// Sorts nodes by dependency, or names a node participating in a cycle.
    fn topological_order(&self) -> (r: Result<Vec<NodeId>, NodeId>)
        ensures
            match r {
                Ok(v) => evaluation_order(self@) == Ok::<Seq<Text>, Text>(id_views(v@)) && respects(
                    self@,
                    id_views(v@),
                ) && forall|x: int| !#[trigger] on_cycle(all_dependencies(self@), x),
                Err(x) => evaluation_order(self@) == Err::<Seq<Text>, Text>(x@)
                    && self@.nodes.dom().contains(x@) && on_cycle(
                    all_dependencies(self@),
                    self@.ids.index_of(x@),
                ),
            },
    {
        proof {
            use_type_invariant(&self.nodes);
            self.lemma_wf();
        }
        let ghost g = self@;
        let mut edges: Vec<(usize, usize)> = Vec::new();
        let m: usize = self.edges.len();
        assert(pairs(edges@) =~= Seq::empty());
        for i in 0..m
            invariant
                m == self.edges@.len(),
                m == g.edges.len(),
                g == self@,
                g.wf(),
                pairs(edges@) == dependencies(g, i as nat),
                forall|k: int|
                    0 <= k < edges@.len() ==> (#[trigger] edges@[k]).0 < g.ids.len() && edges@[k].1
                        < g.ids.len(),
        {
            let edge = &self.edges[i];
            assert(g.edges[i as int] == edge@);
            if !self.is_delayed_source(&edge.from) {
                if let (Some(a), Some(b)) = (
                    self.nodes.index_of(&edge.from.node),
                    self.nodes.index_of(&edge.to.node),
                ) {
                    let ghost before = pairs(edges@);
                    edges.push((a, b));
                    assert(pairs(edges@) =~= before.push((a as int, b as int)));
                    assert(g.ids[a as int] == edge.from.node@);
                    assert(g.ids[b as int] == edge.to.node@);
                }
            }
        }
        let n: usize = self.nodes.len();
        match sort(n, &edges) {
            Ok(order) => {
                let ghost nums = numbers(order@);
                let mut out: Vec<NodeId> = Vec::new();
                let k: usize = order.len();
                proof {
                    assert forall|i: int| 0 <= i < k implies #[trigger] order@[i] < n by {
                        assert(nums[i] == order@[i]);
                        assert(nums.contains(nums[i]));
                    }
                }
                for i in 0..k
                    invariant
                        k == order@.len(),
                        n == g.ids.len(),
                        g == self@,
                        out@.len() == i,
                        forall|j: int| 0 <= j < k ==> #[trigger] order@[j] < n,
                        forall|j: int| 0 <= j < i ==> (#[trigger] out@[j])@ == g.ids[order@[j] as int],
                {
                    out.push(self.nodes.key_at(order[i]).copy());
                }
                proof {
                    let named = Seq::new(nums.len(), |i: int| g.ids[nums[i]]);
                    assert(id_views(out@) =~= named);
                    lemma_respects(g, nums);
                    assert forall|x: int| !#[trigger] on_cycle(all_dependencies(g), x) by {
                        ordered_is_acyclic(g.ids.len(), all_dependencies(g), nums, x);
                    }
                }
                Ok(out)
            },
            Err(x) => {
                let id = self.nodes.key_at(x).copy();
                assert(g.ids.contains(id@));
                Err(id)
            },
        }
    }

    /// Checks structure, types and acyclicity, producing an evaluable graph.
    ///
    /// Collects *all* errors rather than stopping at the first.
    pub fn validate(&self) -> (r: ValidationResult)
        ensures
            match r {
                Ok(c) => all_errors(self@).len() == 0 && c@ == (CompiledView {
                    graph: self@,
                    order: evaluation_order(self@)->Ok_0,
                    types: port_types(self@),
                }) && c@.sound(),
                Err(errors) => error_views(errors@) == all_errors(self@) && errors@.len() > 0,
            },
            match evaluation_order(self@) {
                Ok(_) => forall|x: int| !#[trigger] on_cycle(all_dependencies(self@), x),
                Err(node) => self@.nodes.dom().contains(node) && on_cycle(
                    all_dependencies(self@),
                    self@.ids.index_of(node),
                ),
            },
            r is Ok <==> compiles(self@),
    {
        proof {
            use_type_invariant(&self.nodes);
            self.lemma_wf();
        }
        let ghost g = self@;
        let mut errors: Vec<GraphError> = Vec::new();
        // Which inputs already have a producer.
        let mut driven: OrdMap<PortRef, ()> = OrdMap::new();
        let m: usize = self.edges.len();
        proof {
            assert(error_views(errors@) =~= Seq::empty());
            assert(driven@.dom() =~= Set::empty());
        }
        for i in 0..m
            invariant
                m == self.edges@.len(),
                m == g.edges.len(),
                g == self@,
                (Scan { driven: driven@.dom(), errors: error_views(errors@) }) == scanned(
                    g,
                    i as nat,
                ),
        {
            let edge = &self.edges[i];
            assert(g.edges[i as int] == edge@);
            check_edge(self, &edge.from, &edge.to, &mut driven, &mut errors);
        }
        let ghost structural = error_views(errors@);
        let n: usize = self.nodes.len();
        assert(structural + Seq::<ErrorView>::empty() =~= structural);
        for i in 0..n
            invariant
                n == g.ids.len(),
                g == self@,
                error_views(errors@) == structural + missing(g, i as nat),
        {
            let id = self.nodes.key_at(i);
            let node = self.nodes.value_at(i);
            let spec = node.kind.spec();
            assert(node@ == g.nodes[id@]);
            let ghost before = missing(g, i as nat);
            check_inputs(self, id, &spec.inputs, &mut errors);
            assert((structural + before) + missing_at(g, id@, spec@.inputs, spec@.inputs.len())
                =~= structural + missing(g, (i + 1) as nat));
        }
        let (types, mut found) = infer(self);
        let ghost untyped = error_views(errors@);
        proof {
            assert(problems(g) =~= untyped + error_views(found@));
        }
        let ghost typed = found@;
        let ghost structure = errors@;
        errors.append(&mut found);
        proof {
            assert(errors@ =~= structure + typed);
            assert(error_views(errors@) =~= problems(g));
        }
        match self.topological_order() {
            Ok(order) => {
                if errors.len() == 0 {
                    let graph = self.clone();
                    assert(problems(g).len() == 0);
                    let c = CompiledGraph { graph, order, types };
                    assert(c@ =~= CompiledView {
                        graph: g,
                        order: evaluation_order(g)->Ok_0,
                        types: port_types(g),
                    });
                    Ok(c)
                } else {
                    Err(errors)
                }
            },
            Err(node) => {
                report(&mut errors, GraphError::Cycle(node));
                assert(error_views(errors@).len() == errors@.len());
                Err(errors)
            },
        }
    }
}

} // verus!
