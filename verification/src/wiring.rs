//! What it takes for a graph to compile, stated without the machinery that finds out.
use crate::graph::{lemma_port_named_append, port_named, EdgeView, GraphView, NodeView, PortKey};
use crate::infer::{unified, var, Classes};
use crate::node::{ports, KindView, PortView, TypeView};
use crate::order::{is_walk, on_cycle};
use crate::text::Text;
use crate::units::Quantity;
use crate::validate::{all_dependencies, compiles, dependencies, missing, missing_at, problems, scanned};
use vstd::prelude::*;

verus! {

/// What a declared type comes to once every variable has been given a quantity.
pub open spec fn meant(typing: spec_fn(PortKey) -> Quantity, node: Text, ty: TypeView) -> Quantity {
    match ty {
        TypeView::Concrete(q) => q,
        TypeView::Var(name) => typing(var(node, name)),
    }
}

/// Whether a connection leads from an output to an input, carries one quantity, and runs
/// forward unless its value predates the tick.
pub open spec fn fits(
    g: GraphView,
    typing: spec_fn(PortKey) -> Quantity,
    rank: spec_fn(Text) -> int,
    e: EdgeView,
) -> bool {
    &&& g.output(e.from) is Some
    &&& g.input(e.to) is Some
    &&& g.declared(e.from) is Some && g.declared(e.to) is Some
    &&& meant(typing, e.from.node, g.declared(e.from)->0) == meant(
        typing,
        e.to.node,
        g.declared(e.to)->0,
    )
    &&& g.delayed(e.from) || rank(e.from.node) < rank(e.to.node)
}

/// Whether every connection fits, no input has more producers than it accepts, and every
/// required input has one.
pub open spec fn well_wired(
    g: GraphView,
    typing: spec_fn(PortKey) -> Quantity,
    rank: spec_fn(Text) -> int,
) -> bool {
    &&& forall|i: int| 0 <= i < g.edges.len() ==> fits(g, typing, rank, #[trigger] g.edges[i])
    &&& forall|i: int, j: int|
        0 <= i < j < g.edges.len() && (#[trigger] g.edges[i]).to == (#[trigger] g.edges[j]).to
            ==> (g.input(g.edges[j].to)->0).variadic
    &&& forall|id: Text, k: int|
        g.nodes.dom().contains(id) && 0 <= k < ports(g.nodes[id].kind).inputs.len()
            && (#[trigger] ports(g.nodes[id].kind).inputs[k]).required ==> g.connected(
            PortKey { node: id, port: ports(g.nodes[id].kind).inputs[k].key },
        )
}

proof fn lemma_scanned(
    g: GraphView,
    typing: spec_fn(PortKey) -> Quantity,
    rank: spec_fn(Text) -> int,
    n: nat,
)
    requires
        well_wired(g, typing, rank),
        n <= g.edges.len(),
    ensures
        scanned(g, n).errors.len() == 0,
        forall|r: PortKey| #[trigger]
            scanned(g, n).driven.contains(r) ==> exists|i: int|
                0 <= i < n && (#[trigger] g.edges[i]).to == r,
    decreases n,
{
    if n > 0 {
        let m = (n - 1) as nat;
        lemma_scanned(g, typing, rank, m);
        let e = g.edges[m as int];
        assert(fits(g, typing, rank, e));
        let before = scanned(g, m);
        if before.driven.contains(e.to) {
            let i = choose|i: int| 0 <= i < m && (#[trigger] g.edges[i]).to == e.to;
            assert(g.edges[i].to == g.edges[m as int].to);
        }
        assert forall|r: PortKey| #[trigger] scanned(g, n).driven.contains(r) implies exists|i: int|
            0 <= i < n && (#[trigger] g.edges[i]).to == r by {
            if before.driven.contains(r) {
                let i = choose|i: int| 0 <= i < m && (#[trigger] g.edges[i]).to == r;
                assert(g.edges[i].to == r);
            } else {
                assert(g.edges[m as int].to == r);
            }
        }
    }
}

proof fn lemma_missing_at(g: GraphView, id: Text, inputs: Seq<PortView>, n: nat)
    requires
        n <= inputs.len(),
        forall|k: int|
            0 <= k < inputs.len() && (#[trigger] inputs[k]).required ==> g.connected(
                PortKey { node: id, port: inputs[k].key },
            ),
    ensures
        missing_at(g, id, inputs, n).len() == 0,
    decreases n,
{
    if n > 0 {
        lemma_missing_at(g, id, inputs, (n - 1) as nat);
    }
}

proof fn lemma_missing(
    g: GraphView,
    typing: spec_fn(PortKey) -> Quantity,
    rank: spec_fn(Text) -> int,
    n: nat,
)
    requires
        g.wf(),
        well_wired(g, typing, rank),
        n <= g.ids.len(),
    ensures
        missing(g, n).len() == 0,
    decreases n,
{
    if n > 0 {
        lemma_missing(g, typing, rank, (n - 1) as nat);
        let id = g.ids[n - 1];
        let inputs = ports(g.nodes[id].kind).inputs;
        lemma_missing_at(g, id, inputs, inputs.len());
    }
}

/// Whether what is known of the variables agrees with an assignment.
spec fn agrees(c: Classes, typing: spec_fn(PortKey) -> Quantity) -> bool {
    &&& forall|k: PortKey| #[trigger] c.root.dom().contains(k) ==> typing(c.root[k]) == typing(k)
    &&& forall|k: PortKey| #[trigger] c.bound.dom().contains(k) ==> c.bound[k] == typing(k)
}

proof fn lemma_bind(c: Classes, typing: spec_fn(PortKey) -> Quantity, k: PortKey)
    requires
        agrees(c, typing),
    ensures
        agrees(c.bind(k, typing(k)).0, typing),
        c.bind(k, typing(k)).1 is None,
{
    let m = c.mentioning(k);
    assert(agrees(m, typing));
    assert(m.root.dom().contains(k));
}

proof fn lemma_unite(c: Classes, typing: spec_fn(PortKey) -> Quantity, a: PortKey, b: PortKey)
    requires
        agrees(c, typing),
        typing(a) == typing(b),
    ensures
        agrees(c.unite(a, b).0, typing),
        c.unite(a, b).1 is None,
{
    let m = c.mentioning(a).mentioning(b);
    assert(agrees(c.mentioning(a), typing));
    assert(agrees(m, typing));
    assert(m.root.dom().contains(a) && m.root.dom().contains(b));
    let after = c.unite(a, b).0;
    assert forall|k: PortKey| #[trigger] after.root.dom().contains(k) implies typing(after.root[k])
        == typing(k) by {
        assert(m.root.dom().contains(k));
    }
}

proof fn lemma_types(
    g: GraphView,
    typing: spec_fn(PortKey) -> Quantity,
    rank: spec_fn(Text) -> int,
    n: nat,
)
    requires
        well_wired(g, typing, rank),
        n <= g.edges.len(),
    ensures
        unified(g, n).1.len() == 0,
        agrees(unified(g, n).0, typing),
    decreases n,
{
    if n > 0 {
        lemma_types(g, typing, rank, (n - 1) as nat);
        let e = g.edges[n - 1];
        let c = unified(g, (n - 1) as nat).0;
        assert(fits(g, typing, rank, e));
        match (g.declared(e.from)->0, g.declared(e.to)->0) {
            (TypeView::Concrete(a), TypeView::Var(name)) => {
                lemma_bind(c, typing, var(e.to.node, name));
            },
            (TypeView::Var(name), TypeView::Concrete(b)) => {
                lemma_bind(c, typing, var(e.from.node, name));
            },
            (TypeView::Var(a), TypeView::Var(b)) => {
                lemma_unite(c, typing, var(e.from.node, a), var(e.to.node, b));
            },
            _ => {},
        }
    }
}

proof fn lemma_forward(
    g: GraphView,
    typing: spec_fn(PortKey) -> Quantity,
    rank: spec_fn(Text) -> int,
    n: nat,
    p: (int, int),
)
    requires
        g.wf(),
        well_wired(g, typing, rank),
        n <= g.edges.len(),
        dependencies(g, n).contains(p),
    ensures
        rank(g.ids[p.0]) < rank(g.ids[p.1]),
    decreases n,
{
    let all = dependencies(g, n);
    let k = choose|k: int| 0 <= k < all.len() && all[k] == p;
    let before = dependencies(g, (n - 1) as nat);
    let e = g.edges[n - 1];
    if k < before.len() {
        assert(before[k] == p);
        lemma_forward(g, typing, rank, (n - 1) as nat, p);
    } else {
        assert(fits(g, typing, rank, e));
        assert(g.ids.contains(e.from.node) && g.ids.contains(e.to.node));
        assert(g.ids[g.ids.index_of(e.from.node)] == e.from.node);
        assert(g.ids[g.ids.index_of(e.to.node)] == e.to.node);
    }
}

proof fn lemma_walks_climb(
    g: GraphView,
    typing: spec_fn(PortKey) -> Quantity,
    rank: spec_fn(Text) -> int,
    walk: Seq<int>,
    k: int,
)
    requires
        g.wf(),
        well_wired(g, typing, rank),
        is_walk(all_dependencies(g), walk),
        0 < k < walk.len(),
    ensures
        rank(g.ids[walk[0]]) < rank(g.ids[walk[k]]),
    decreases k,
{
    assert(all_dependencies(g).contains((walk[k - 1], walk[k - 1 + 1])));
    lemma_forward(g, typing, rank, g.edges.len(), (walk[k - 1], walk[k]));
    if k > 1 {
        lemma_walks_climb(g, typing, rank, walk, k - 1);
    }
}

/// A graph compiles if its connections lead from outputs to inputs, no input has more
/// producers than it accepts, every required input has one, quantities can be given to the
/// inferred types so that every connection carries one, and the nodes can be ranked so that
/// every connection whose value is of this tick runs upward.
pub proof fn well_wired_graphs_compile(
    g: GraphView,
    typing: spec_fn(PortKey) -> Quantity,
    rank: spec_fn(Text) -> int,
)
    requires
        g.wf(),
        well_wired(g, typing, rank),
    ensures
        compiles(g),
{
    lemma_scanned(g, typing, rank, g.edges.len());
    lemma_missing(g, typing, rank, g.ids.len());
    lemma_types(g, typing, rank, g.edges.len());
    assert(problems(g).len() == 0);
    assert forall|x: int| !#[trigger] on_cycle(all_dependencies(g), x) by {
        if on_cycle(all_dependencies(g), x) {
            let walk = choose|walk: Seq<int>|
                walk.len() >= 2 && walk[0] == x && walk.last() == x && #[trigger] is_walk(
                    all_dependencies(g),
                    walk,
                );
            lemma_walks_climb(g, typing, rank, walk, walk.len() - 1);
        }
    }
}

// --- Generated graphs --------------------------------------------------------------------------

/// The quantity that a generic node carries in the graphs this library generates.
pub open spec fn usual(kind: KindView) -> Quantity {
    match kind {
        KindView::Constant { .. }
        | KindView::Clamp { .. }
        | KindView::RateLimit { .. }
        | KindView::Select => Quantity::Duty,
        KindView::Comparator { .. } => Quantity::Rpm,
        _ => Quantity::Temperature,
    }
}

/// Where a node stands on the way from a sensor to a fan, in the graphs this library
/// generates.
pub open spec fn stage(kind: KindView) -> int {
    match kind {
        KindView::Sensor { .. } | KindView::Constant { .. } => 0,
        KindView::Hold { .. } | KindView::Mix { .. } | KindView::Comparator { .. } => 1,
        KindView::LowPass { .. } => 2,
        KindView::Curve { .. } => 3,
        KindView::Clamp { .. } | KindView::RateLimit { .. } | KindView::Select => 4,
        _ => 5,
    }
}

/// What a declared type usually comes to.
pub open spec fn usually(kind: KindView, ty: TypeView) -> Quantity {
    match ty {
        TypeView::Concrete(q) => q,
        TypeView::Var(_) => usual(kind),
    }
}

/// Whether an output of one kind of node can feed an input of another.
pub open spec fn joins(a: KindView, out: Text, b: KindView, into: Text) -> bool {
    &&& port_named(ports(a).inputs, out) is None
    &&& port_named(ports(b).inputs, into) is Some
    &&& match port_named(ports(a).outputs, out) {
        Some(p) => usually(a, p.ty) == usually(b, (port_named(ports(b).inputs, into)->0).ty) && (
        p.delayed || stage(a) < stage(b)),
        None => false,
    }
}

/// Whether a connection joins two nodes that are there.
pub open spec fn joined_up(nodes: Map<Text, NodeView>, e: EdgeView) -> bool {
    &&& nodes.dom().contains(e.from.node)
    &&& nodes.dom().contains(e.to.node)
    &&& joins(nodes[e.from.node].kind, e.from.port, nodes[e.to.node].kind, e.to.port)
}

/// Whether an input accepts many producers.
pub open spec fn takes_many(nodes: Map<Text, NodeView>, r: PortKey) -> bool {
    (port_named(ports(nodes[r.node].kind).inputs, r.port)->0).variadic
}

/// Whether a connection ends at a port.
pub open spec fn fed(edges: Seq<EdgeView>, r: PortKey) -> bool {
    exists|i: int| 0 <= i < edges.len() && (#[trigger] edges[i]).to == r
}

/// Whether nodes and connections make a graph that is complete as it stands.
pub open spec fn complete(nodes: Map<Text, NodeView>, edges: Seq<EdgeView>) -> bool {
    &&& forall|i: int| 0 <= i < edges.len() ==> joined_up(nodes, #[trigger] edges[i])
    &&& forall|i: int, j: int|
        0 <= i < j < edges.len() && (#[trigger] edges[i]).to == (#[trigger] edges[j]).to
            ==> takes_many(nodes, edges[j].to)
    &&& forall|id: Text, k: int|
        nodes.dom().contains(id) && 0 <= k < ports(nodes[id].kind).inputs.len() ==> fed(
            edges,
            PortKey { node: id, port: (#[trigger] ports(nodes[id].kind).inputs[k]).key },
        )
}

/// New nodes that are all fed, by connections that end at new nodes, leave a graph complete.
pub proof fn lemma_extended(
    nodes: Map<Text, NodeView>,
    edges: Seq<EdgeView>,
    more: Map<Text, NodeView>,
    added: Seq<EdgeView>,
)
    requires
        complete(nodes, edges),
        nodes.submap_of(more),
        forall|i: int|
            0 <= i < added.len() ==> joined_up(more, #[trigger] added[i])
                && !nodes.dom().contains(added[i].to.node),
        forall|i: int, j: int|
            0 <= i < j < added.len() && (#[trigger] added[i]).to == (#[trigger] added[j]).to
                ==> takes_many(more, added[j].to),
        forall|id: Text, k: int|
            more.dom().contains(id) && !nodes.dom().contains(id) && 0 <= k < ports(
                more[id].kind,
            ).inputs.len() ==> fed(
                added,
                PortKey { node: id, port: (#[trigger] ports(more[id].kind).inputs[k]).key },
            ),
    ensures
        complete(more, edges + added),
{
    let all = edges + added;
    assert forall|id: Text| #[trigger] nodes.dom().contains(id) implies more.dom().contains(id)
        && more[id] == nodes[id] by {}
    assert forall|i: int| 0 <= i < all.len() implies joined_up(more, #[trigger] all[i]) by {
        if i < edges.len() {
            assert(joined_up(nodes, edges[i]));
        } else {
            assert(joined_up(more, added[i - edges.len()]));
        }
    }
    assert forall|i: int, j: int|
        0 <= i < j < all.len() && (#[trigger] all[i]).to == (#[trigger] all[j]).to implies takes_many(
        more,
        all[j].to,
    ) by {
        if j < edges.len() {
            assert(edges[i].to == edges[j].to);
            assert(joined_up(nodes, edges[j]));
        } else if i >= edges.len() {
            assert(added[i - edges.len()].to == added[j - edges.len()].to);
        } else {
            assert(joined_up(nodes, edges[i]));
            assert(!nodes.dom().contains(added[j - edges.len()].to.node));
        }
    }
    assert forall|id: Text, k: int|
        more.dom().contains(id) && 0 <= k < ports(more[id].kind).inputs.len() implies fed(
        all,
        PortKey { node: id, port: (#[trigger] ports(more[id].kind).inputs[k]).key },
    ) by {
        let r = PortKey { node: id, port: ports(more[id].kind).inputs[k].key };
        if nodes.dom().contains(id) {
            assert(ports(nodes[id].kind).inputs[k] == ports(more[id].kind).inputs[k]);
            assert(fed(edges, r));
            let i = choose|i: int| 0 <= i < edges.len() && (#[trigger] edges[i]).to == r;
            assert(all[i].to == r);
        } else {
            assert(fed(added, r));
            let i = choose|i: int| 0 <= i < added.len() && (#[trigger] added[i]).to == r;
            assert(all[edges.len() + i].to == r);
        }
    }
}

/// A new node without inputs leaves a graph complete.
pub proof fn lemma_source_added(
    nodes: Map<Text, NodeView>,
    edges: Seq<EdgeView>,
    id: Text,
    node: NodeView,
)
    requires
        complete(nodes, edges),
        !nodes.dom().contains(id),
        ports(node.kind).inputs.len() == 0,
    ensures
        complete(nodes.insert(id, node), edges),
{
    let none = Seq::<EdgeView>::empty();
    lemma_extended(nodes, edges, nodes.insert(id, node), none);
    assert(edges + none =~= edges);
}

/// A new node with one input, and a connection that feeds it, leave a graph complete.
pub proof fn lemma_link_added(
    nodes: Map<Text, NodeView>,
    edges: Seq<EdgeView>,
    id: Text,
    node: NodeView,
    e: EdgeView,
)
    requires
        complete(nodes, edges),
        !nodes.dom().contains(id),
        e.to.node == id,
        nodes.dom().contains(e.from.node),
        joins(nodes[e.from.node].kind, e.from.port, node.kind, e.to.port),
        ports(node.kind).inputs.len() == 1,
        ports(node.kind).inputs[0].key == e.to.port,
    ensures
        complete(nodes.insert(id, node), edges.push(e)),
{
    let more = nodes.insert(id, node);
    let added = seq![e];
    assert(added[0] == e);
    assert(joined_up(more, e));
    assert forall|x: Text, k: int|
        more.dom().contains(x) && !nodes.dom().contains(x) && 0 <= k < ports(
            more[x].kind,
        ).inputs.len() implies fed(
        added,
        PortKey { node: x, port: (#[trigger] ports(more[x].kind).inputs[k]).key },
    ) by {
        assert(x == id && k == 0);
        assert(added[0].to == PortKey { node: x, port: ports(more[x].kind).inputs[k].key });
    }
    lemma_extended(nodes, edges, more, added);
    assert(edges + added =~= edges.push(e));
}

/// A graph that is complete as it stands compiles.
pub proof fn complete_graphs_compile(g: GraphView)
    requires
        g.wf(),
        complete(g.nodes, g.edges),
    ensures
        compiles(g),
{
    let typing = |k: PortKey| usual(g.nodes[k.node].kind);
    let rank = |id: Text| stage(g.nodes[id].kind);
    assert forall|i: int| 0 <= i < g.edges.len() implies fits(g, typing, rank, #[trigger] g.edges[i]) by {
        let e = g.edges[i];
        assert(joined_up(g.nodes, e));
        let a = ports(g.nodes[e.from.node].kind);
        let b = ports(g.nodes[e.to.node].kind);
        lemma_port_named_append(a.inputs, a.outputs, e.from.port);
        lemma_port_named_append(b.inputs, b.outputs, e.to.port);
    }
    assert forall|i: int, j: int|
        0 <= i < j < g.edges.len() && (#[trigger] g.edges[i]).to == (#[trigger] g.edges[j]).to implies (
    g.input(g.edges[j].to)->0).variadic by {
        assert(joined_up(g.nodes, g.edges[j]));
        assert(takes_many(g.nodes, g.edges[j].to));
    }
    assert forall|id: Text, k: int|
        g.nodes.dom().contains(id) && 0 <= k < ports(g.nodes[id].kind).inputs.len()
            && (#[trigger] ports(g.nodes[id].kind).inputs[k]).required implies g.connected(
        PortKey { node: id, port: ports(g.nodes[id].kind).inputs[k].key },
    ) by {
        assert(fed(
            g.edges,
            PortKey { node: id, port: ports(g.nodes[id].kind).inputs[k].key },
        ));
    }
    well_wired_graphs_compile(g, typing, rank);
}

/// Where the ports of a kind are found.
pub proof fn lemma_ports_found(kind: KindView)
    ensures
        !(kind is FanOutput) ==> port_named(ports(kind).inputs, "out"@) is None && port_named(
            ports(kind).outputs,
            "out"@,
        ) == Some(ports(kind).outputs[0]),
        ports(kind).inputs.len() == 1 && !(kind is FanOutput) ==> port_named(
            ports(kind).inputs,
            "in"@,
        ) == Some(ports(kind).inputs[0]) && ports(kind).inputs[0].key == "in"@,
        kind is FanOutput ==> ports(kind).inputs.len() == 1 && port_named(
            ports(kind).inputs,
            "duty"@,
        ) == Some(ports(kind).inputs[0]) && ports(kind).inputs[0].key == "duty"@ && port_named(
            ports(kind).inputs,
            "rpm"@,
        ) is None && port_named(ports(kind).outputs, "rpm"@) == Some(ports(kind).outputs[0]),
        kind is Select ==> ports(kind).inputs.len() == 3 && port_named(
            ports(kind).inputs,
            "when"@,
        ) == Some(ports(kind).inputs[0]) && port_named(ports(kind).inputs, "if_true"@) == Some(
            ports(kind).inputs[1],
        ) && port_named(ports(kind).inputs, "if_false"@) == Some(ports(kind).inputs[2])
            && ports(kind).inputs[0].key == "when"@ && ports(kind).inputs[1].key == "if_true"@
            && ports(kind).inputs[2].key == "if_false"@,
        (kind is Sensor || kind is Constant) <==> ports(kind).inputs.len() == 0,
        ports(kind).inputs.len() <= 1 || kind is Select,
{
    reveal_with_fuel(port_named, 4);
    reveal_strlit("in");
    reveal_strlit("out");
    reveal_strlit("duty");
    reveal_strlit("rpm");
    reveal_strlit("when");
    reveal_strlit("if_true");
    reveal_strlit("if_false");
    assert("in"@.len() == 2 && "out"@.len() == 3 && "duty"@.len() == 4 && "rpm"@.len() == 3);
    assert("when"@.len() == 4 && "if_true"@.len() == 7 && "if_false"@.len() == 8);
    assert("rpm"@[0] == 'r' && "out"@[0] == 'o');
    let inputs = ports(kind).inputs;
    if kind is Select {
        assert(inputs.drop_first()[0] == inputs[1]);
        assert(inputs.drop_first().drop_first()[0] == inputs[2]);
    }
}

} // verus!
