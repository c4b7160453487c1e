//! What validation finds in a graph: every mistake, and no other, in its connections, its inputs and
//! its types; what waits for what in it, which sensors it needs, and what of it a chip could run.
use crate::graph::{
    lemma_port_named, port_named, sensors_of, EdgeView, ErrorView, GraphView, PortKey,
};
use crate::infer::{port_types, type_errors, unified, unify_edge, var, Classes};
use crate::node::{ports, KindView, TypeView};
use crate::offload::{folded, outputs_naming, reduced, source_of, ObstacleView, WhyView};
use crate::offload_guarantees::lemma_naming;
use crate::text::Text;
use crate::units::Quantity;
use crate::validate::{
    dependencies, missing, missing_at, problems, scan_edge, scanned, wrong_end, wrong_start, Scan,
};
use vstd::prelude::*;

verus! {

// --- Ports ---------------------------------------------------------------------------------------

/// Whether a node of the graph has an input.
pub open spec fn takes(g: GraphView, r: PortKey) -> bool {
    g.nodes.dom().contains(r.node) && exists|k: int|
        0 <= k < ports(g.nodes[r.node].kind).inputs.len() && (#[trigger] ports(
            g.nodes[r.node].kind,
        ).inputs[k]).key == r.port
}

/// Whether a node of the graph has an output, and no input of the same name.
pub open spec fn emits(g: GraphView, r: PortKey) -> bool {
    g.nodes.dom().contains(r.node) && !takes(g, r) && exists|k: int|
        0 <= k < ports(g.nodes[r.node].kind).outputs.len() && (#[trigger] ports(
            g.nodes[r.node].kind,
        ).outputs[k]).key == r.port
}

proof fn lemma_port(g: GraphView, r: PortKey)
    ensures
        g.input(r) is Some <==> takes(g, r),
        g.output(r) is Some <==> emits(g, r),
{
    let spec = ports(g.nodes[r.node].kind);
    lemma_port_named(spec.inputs, r.port);
    lemma_port_named(spec.outputs, r.port);
    if let Some(p) = port_named(spec.inputs, r.port) {
        let k = spec.inputs.index_of(p);
        assert(spec.inputs[k].key == r.port);
    }
    if let Some(p) = port_named(spec.outputs, r.port) {
        let k = spec.outputs.index_of(p);
        assert(spec.outputs[k].key == r.port);
    }
}

/// Whether a mistake is that of a connection which does not start at an output.
pub open spec fn starts_wrong(g: GraphView, r: PortKey, err: ErrorView) -> bool {
    match err {
        ErrorView::UnknownNode(x) => r.node == x && !g.nodes.dom().contains(x),
        ErrorView::UnknownPort(x, p) => r.node == x && r.port == p && g.nodes.dom().contains(x)
            && !takes(g, r) && !emits(g, r),
        ErrorView::NotAnOutput(q) => q == r && takes(g, r),
        _ => false,
    }
}

/// Whether a mistake is that of a connection which does not end at an input.
pub open spec fn ends_wrong(g: GraphView, r: PortKey, err: ErrorView) -> bool {
    match err {
        ErrorView::UnknownNode(x) => r.node == x && !g.nodes.dom().contains(x),
        ErrorView::UnknownPort(x, p) => r.node == x && r.port == p && g.nodes.dom().contains(x)
            && !takes(g, r) && !emits(g, r),
        ErrorView::NotAnInput(q) => q == r && emits(g, r),
        _ => false,
    }
}

proof fn lemma_ends(g: GraphView, r: PortKey, err: ErrorView)
    ensures
        wrong_start(g, r) == Some(err) <==> starts_wrong(g, r, err),
        wrong_end(g, r) == Some(err) <==> ends_wrong(g, r, err),
        wrong_start(g, r) is None <==> emits(g, r),
        wrong_end(g, r) is None <==> takes(g, r),
{
    lemma_port(g, r);
}

// --- Connections ---------------------------------------------------------------------------------

/// Whether a connection leads from an output to an input.
pub open spec fn lands(g: GraphView, e: EdgeView) -> bool {
    emits(g, e.from) && takes(g, e.to)
}

/// Whether an input takes one connection only.
pub open spec fn takes_one(g: GraphView, r: PortKey) -> bool {
    takes(g, r) && !(g.input(r)->0).variadic
}

/// Whether a connection is mistaken at one of its ends.
pub open spec fn mistaken(g: GraphView, e: EdgeView, err: ErrorView) -> bool {
    starts_wrong(g, e.from, err) || ends_wrong(g, e.to, err)
}

/// Whether an input that takes one connection has two.
pub open spec fn crowded(g: GraphView, r: PortKey, n: nat) -> bool {
    takes_one(g, r) && exists|i: int, j: int|
        0 <= i < j < n && (#[trigger] g.edges[i]).to == r && (#[trigger] g.edges[j]).to == r && lands(
            g,
            g.edges[i],
        ) && lands(g, g.edges[j])
}

proof fn lemma_scanned(g: GraphView, n: nat)
    requires
        n <= g.edges.len(),
    ensures
        forall|r: PortKey| #[trigger]
            scanned(g, n).driven.contains(r) <==> takes_one(g, r) && exists|i: int|
                0 <= i < n && (#[trigger] g.edges[i]).to == r && lands(g, g.edges[i]),
        forall|err: ErrorView| #[trigger]
            scanned(g, n).errors.contains(err) <==> (exists|i: int|
                0 <= i < n && mistaken(g, #[trigger] g.edges[i], err)) || (
            err matches ErrorView::InputOverSubscribed(r) && crowded(g, r, n)),
    decreases n,
{
    if n == 0 {
        assert(scanned(g, 0).errors =~= Seq::empty());
    } else {
        let m = (n - 1) as nat;
        lemma_scanned(g, m);
        let before = scanned(g, m);
        let after = scanned(g, n);
        let e = g.edges[n - 1];
        lemma_port(g, e.from);
        lemma_port(g, e.to);
        assert forall|err: ErrorView| (#[trigger] after.errors.contains(err)) <==> before.errors.contains(
            err,
        ) || mistaken(g, e, err) || (err == ErrorView::InputOverSubscribed(e.to) && lands(g, e)
            && takes_one(g, e.to) && before.driven.contains(e.to)) by {
            lemma_ends(g, e.from, err);
            lemma_ends(g, e.to, err);
            lemma_pushed(g, before, e, err);
        }
        assert forall|r: PortKey| #[trigger] after.driven.contains(r) <==> takes_one(g, r)
            && exists|i: int| 0 <= i < n && (#[trigger] g.edges[i]).to == r && lands(g, g.edges[i]) by {
            if before.driven.contains(r) {
                let i = choose|i: int|
                    0 <= i < m && (#[trigger] g.edges[i]).to == r && lands(g, g.edges[i]);
                assert(g.edges[i].to == r);
            }
            if takes_one(g, r) && exists|i: int|
                0 <= i < n && (#[trigger] g.edges[i]).to == r && lands(g, g.edges[i]) {
                let i = choose|i: int|
                    0 <= i < n && (#[trigger] g.edges[i]).to == r && lands(g, g.edges[i]);
                if i < m {
                    assert(before.driven.contains(r));
                }
            }
            if after.driven.contains(r) && !before.driven.contains(r) {
                assert(g.edges[n - 1].to == r);
            }
        }
        assert forall|err: ErrorView| #[trigger] after.errors.contains(err) <==> (exists|i: int|
            0 <= i < n && mistaken(g, #[trigger] g.edges[i], err)) || (
        err matches ErrorView::InputOverSubscribed(r) && crowded(g, r, n)) by {
            if exists|i: int| 0 <= i < m && mistaken(g, #[trigger] g.edges[i], err) {
                let i = choose|i: int| 0 <= i < m && mistaken(g, #[trigger] g.edges[i], err);
                assert(mistaken(g, g.edges[i], err));
            }
            if exists|i: int| 0 <= i < n && mistaken(g, #[trigger] g.edges[i], err) {
                let i = choose|i: int| 0 <= i < n && mistaken(g, #[trigger] g.edges[i], err);
                if i < m {
                    assert(before.errors.contains(err));
                }
            }
            if mistaken(g, e, err) {
                assert(mistaken(g, g.edges[n - 1], err));
            }
            if let ErrorView::InputOverSubscribed(r) = err {
                lemma_crowded(g, r, n);
                if before.driven.contains(r) {
                    let i = choose|i: int|
                        0 <= i < m && (#[trigger] g.edges[i]).to == r && lands(g, g.edges[i]);
                    assert(g.edges[i].to == r);
                }
            }
        }
    }
}

proof fn lemma_pushed(g: GraphView, s: Scan, e: EdgeView, err: ErrorView)
    ensures
        scan_edge(g, s, e).errors.contains(err) <==> s.errors.contains(err) || wrong_start(g, e.from)
            == Some(err) || wrong_end(g, e.to) == Some(err) || (wrong_start(g, e.from) is None
            && wrong_end(g, e.to) is None && !(g.input(e.to)->0).variadic && s.driven.contains(e.to)
            && err == ErrorView::InputOverSubscribed(e.to)),
{
    let t = scan_edge(g, s, e);
    if s.errors.contains(err) {
        assert(t.errors[s.errors.index_of(err)] == err);
    }
    if t.errors.contains(err) && !s.errors.contains(err) {
        let k = t.errors.index_of(err);
        if k < s.errors.len() {
            assert(s.errors[k] == err);
        }
    }
    let n = s.errors.len() as int;
    match (wrong_start(g, e.from), wrong_end(g, e.to)) {
        (Some(a), Some(b)) => {
            assert(t.errors[n] == a && t.errors[n + 1] == b);
        },
        (Some(a), None) => {
            assert(t.errors[n] == a);
        },
        (None, Some(b)) => {
            assert(t.errors[n] == b);
        },
        (None, None) => {
            if !(g.input(e.to)->0).variadic && s.driven.contains(e.to) {
                assert(t.errors[n] == ErrorView::InputOverSubscribed(e.to));
            }
        },
    }
}

proof fn lemma_crowded(g: GraphView, r: PortKey, n: nat)
    requires
        0 < n <= g.edges.len(),
    ensures
        crowded(g, r, n) <==> crowded(g, r, (n - 1) as nat) || (takes_one(g, r) && g.edges[n - 1].to
            == r && lands(g, g.edges[n - 1]) && exists|i: int|
            0 <= i < n - 1 && (#[trigger] g.edges[i]).to == r && lands(g, g.edges[i])),
{
    let m = (n - 1) as nat;
    if crowded(g, r, n) {
        let (i, j) = choose|i: int, j: int|
            0 <= i < j < n && (#[trigger] g.edges[i]).to == r && (#[trigger] g.edges[j]).to == r
                && lands(g, g.edges[i]) && lands(g, g.edges[j]);
        assert(g.edges[i].to == r && g.edges[j].to == r);
        if j < m {
            assert(crowded(g, r, m));
        }
    }
    if crowded(g, r, m) {
        let (i, j) = choose|i: int, j: int|
            0 <= i < j < m && (#[trigger] g.edges[i]).to == r && (#[trigger] g.edges[j]).to == r
                && lands(g, g.edges[i]) && lands(g, g.edges[j]);
        assert(g.edges[i].to == r && g.edges[j].to == r);
    }
    if takes_one(g, r) && g.edges[n - 1].to == r && lands(g, g.edges[n - 1]) && exists|i: int|
        0 <= i < n - 1 && (#[trigger] g.edges[i]).to == r && lands(g, g.edges[i]) {
        let i = choose|i: int|
            0 <= i < n - 1 && (#[trigger] g.edges[i]).to == r && lands(g, g.edges[i]);
        assert(g.edges[i].to == r && g.edges[n - 1].to == r);
    }
}

/// Every mistaken connection is reported as the mistake that it is, and so is every input that
/// has two connections and takes one; and nothing is reported of a connection that is in order.
pub proof fn mistaken_connections_are_reported(g: GraphView, err: ErrorView)
    ensures
        scanned(g, g.edges.len()).errors.contains(err) <==> (exists|i: int|
            0 <= i < g.edges.len() && mistaken(g, #[trigger] g.edges[i], err)) || (
        err matches ErrorView::InputOverSubscribed(r) && crowded(g, r, g.edges.len())),
{
    lemma_scanned(g, g.edges.len());
}

// --- Inputs --------------------------------------------------------------------------------------

proof fn lemma_missing_at(g: GraphView, id: Text, n: nat)
    requires
        n <= ports(g.nodes[id].kind).inputs.len(),
    ensures
        forall|err: ErrorView| #[trigger]
            missing_at(g, id, ports(g.nodes[id].kind).inputs, n).contains(err) <==> exists|k: int|
                0 <= k < n && (#[trigger] ports(g.nodes[id].kind).inputs[k]).required
                    && !g.connected(
                    PortKey { node: id, port: ports(g.nodes[id].kind).inputs[k].key },
                ) && err == ErrorView::MissingInput(
                    PortKey { node: id, port: ports(g.nodes[id].kind).inputs[k].key },
                ),
    decreases n,
{
    let inputs = ports(g.nodes[id].kind).inputs;
    if n == 0 {
        assert(missing_at(g, id, inputs, 0) =~= Seq::empty());
    } else {
        let m = (n - 1) as nat;
        lemma_missing_at(g, id, m);
        let before = missing_at(g, id, inputs, m);
        let after = missing_at(g, id, inputs, n);
        assert forall|err: ErrorView| #[trigger] after.contains(err) <==> exists|k: int|
            0 <= k < n && (#[trigger] inputs[k]).required && !g.connected(
                PortKey { node: id, port: inputs[k].key },
            ) && err == ErrorView::MissingInput(PortKey { node: id, port: inputs[k].key }) by {
            if after.contains(err) {
                let o = after.index_of(err);
                if o < before.len() {
                    assert(before[o] == err);
                    assert(before.contains(err));
                    let k = choose|k: int|
                        0 <= k < m && (#[trigger] inputs[k]).required && !g.connected(
                            PortKey { node: id, port: inputs[k].key },
                        ) && err == ErrorView::MissingInput(
                            PortKey { node: id, port: inputs[k].key },
                        );
                    assert(inputs[k].required);
                } else {
                    assert(inputs[n - 1].required);
                }
            }
            if exists|k: int|
                0 <= k < n && (#[trigger] inputs[k]).required && !g.connected(
                    PortKey { node: id, port: inputs[k].key },
                ) && err == ErrorView::MissingInput(PortKey { node: id, port: inputs[k].key }) {
                let k = choose|k: int|
                    0 <= k < n && (#[trigger] inputs[k]).required && !g.connected(
                        PortKey { node: id, port: inputs[k].key },
                    ) && err == ErrorView::MissingInput(PortKey { node: id, port: inputs[k].key });
                if k < m {
                    assert(before.contains(err));
                    assert(after[before.index_of(err)] == err);
                } else {
                    assert(after[before.len() as int] == err);
                }
            }
        }
    }
}

/// Whether a required input of a node is left unconnected.
pub open spec fn starved(g: GraphView, id: Text, k: int) -> bool {
    &&& 0 <= k < ports(g.nodes[id].kind).inputs.len()
    &&& ports(g.nodes[id].kind).inputs[k].required
    &&& !g.connected(PortKey { node: id, port: ports(g.nodes[id].kind).inputs[k].key })
}

/// Every required input that nothing is connected to is reported.
pub proof fn missing_inputs_are_reported(g: GraphView, n: nat, i: int, k: int)
    requires
        0 <= i < n <= g.ids.len(),
        starved(g, g.ids[i], k),
    ensures
        missing(g, n).contains(
            ErrorView::MissingInput(
                PortKey {
                    node: g.ids[i],
                    port: ports(g.nodes[g.ids[i]].kind).inputs[k].key,
                },
            ),
        ),
    decreases n,
{
    let m = (n - 1) as nat;
    let id = g.ids[n - 1];
    let inputs = ports(g.nodes[id].kind).inputs;
    let err = ErrorView::MissingInput(
        PortKey { node: g.ids[i], port: ports(g.nodes[g.ids[i]].kind).inputs[k].key },
    );
    let before = missing(g, m);
    let here = missing_at(g, id, inputs, inputs.len());
    if i < m {
        missing_inputs_are_reported(g, m, i, k);
        assert(missing(g, n)[before.index_of(err)] == err);
    } else {
        lemma_missing_at(g, id, inputs.len());
        assert(inputs[k].required);
        assert(here.contains(err));
        assert(missing(g, n)[before.len() + here.index_of(err)] == err);
    }
}

/// Nothing is reported missing that is not.
pub proof fn only_missing_inputs_are_reported(g: GraphView, n: nat, err: ErrorView)
    requires
        n <= g.ids.len(),
        missing(g, n).contains(err),
    ensures
        exists|i: int, k: int|
            0 <= i < n && #[trigger] starved(g, g.ids[i], k) && err == ErrorView::MissingInput(
                PortKey { node: g.ids[i], port: ports(g.nodes[g.ids[i]].kind).inputs[k].key },
            ),
    decreases n,
{
    if n > 0 {
        let m = (n - 1) as nat;
        let id = g.ids[n - 1];
        let inputs = ports(g.nodes[id].kind).inputs;
        let before = missing(g, m);
        let here = missing_at(g, id, inputs, inputs.len());
        let o = missing(g, n).index_of(err);
        if o < before.len() {
            assert(before[o] == err);
            only_missing_inputs_are_reported(g, m, err);
            let (i, k) = choose|i: int, k: int|
                0 <= i < m && #[trigger] starved(g, g.ids[i], k) && err == ErrorView::MissingInput(
                    PortKey { node: g.ids[i], port: ports(g.nodes[g.ids[i]].kind).inputs[k].key },
                );
            assert(starved(g, g.ids[i], k));
        } else {
            assert(here[o - before.len()] == err);
            assert(here.contains(err));
            lemma_missing_at(g, id, inputs.len());
            let k = choose|k: int|
                0 <= k < inputs.len() && (#[trigger] inputs[k]).required && !g.connected(
                    PortKey { node: id, port: inputs[k].key },
                ) && err == ErrorView::MissingInput(PortKey { node: id, port: inputs[k].key });
            assert(starved(g, g.ids[n - 1], k));
        }
    }
}

/// A graph without problems is in order: every connection leads from an output to an input, no
/// input that takes one connection has two, and every required input has one.
pub proof fn a_graph_without_problems_is_in_order(g: GraphView)
    requires
        g.wf(),
        problems(g).len() == 0,
    ensures
        forall|i: int| 0 <= i < g.edges.len() ==> lands(g, #[trigger] g.edges[i]),
        forall|r: PortKey| !#[trigger] crowded(g, r, g.edges.len()),
        forall|id: Text, k: int|
            g.nodes.dom().contains(id) ==> !#[trigger] starved(g, id, k),
{
    let errors = scanned(g, g.edges.len()).errors;
    lemma_scanned(g, g.edges.len());
    assert(errors.len() == 0 && missing(g, g.ids.len()).len() == 0);
    assert forall|i: int| 0 <= i < g.edges.len() implies lands(g, #[trigger] g.edges[i]) by {
        let e = g.edges[i];
        if let Some(err) = wrong_start(g, e.from) {
            lemma_ends(g, e.from, err);
            assert(mistaken(g, g.edges[i], err));
            assert(errors.contains(err));
        }
        if let Some(err) = wrong_end(g, e.to) {
            lemma_ends(g, e.to, err);
            assert(mistaken(g, g.edges[i], err));
            assert(errors.contains(err));
        }
        lemma_port(g, e.from);
        lemma_port(g, e.to);
        lemma_ends(g, e.from, ErrorView::Cycle(e.from.node));
        lemma_ends(g, e.to, ErrorView::Cycle(e.to.node));
    }
    assert forall|r: PortKey| !#[trigger] crowded(g, r, g.edges.len()) by {
        if crowded(g, r, g.edges.len()) {
            assert(errors.contains(ErrorView::InputOverSubscribed(r)));
        }
    }
    assert forall|id: Text, k: int|
        g.nodes.dom().contains(id) implies !#[trigger] starved(g, id, k) by {
        if starved(g, id, k) {
            assert(g.ids.contains(id));
            let i = g.ids.index_of(id);
            assert(g.ids[i] == id);
            missing_inputs_are_reported(g, g.ids.len(), i, k);
        }
    }
}

// --- Order ---------------------------------------------------------------------------------------

/// Every input has to be connected, and only a mix takes more than one connection. No node has
/// more than one output.
pub proof fn every_input_is_required_and_a_mix_takes_many(kind: KindView, k: int)
    ensures
        0 <= k < ports(kind).inputs.len() ==> ports(kind).inputs[k].required && (
        ports(kind).inputs[k].variadic <==> kind is Mix),
        ports(kind).outputs.len() == 1,
{
}

/// Whether what a port gives is from before: it is what a delay gives, or the speed of a fan.
pub open spec fn from_before(g: GraphView, r: PortKey) -> bool {
    &&& g.nodes.dom().contains(r.node)
    &&& {
        ||| g.nodes[r.node].kind is Delay && r.port == "out"@
        ||| g.nodes[r.node].kind is FanOutput && r.port == "rpm"@
    }
}

proof fn lemma_from_before(g: GraphView, r: PortKey)
    ensures
        g.delayed(r) <==> from_before(g, r),
{
    if g.nodes.dom().contains(r.node) {
        let outputs = ports(g.nodes[r.node].kind).outputs;
        lemma_port_named(outputs, r.port);
        assert(outputs.len() == 1);
        if let Some(p) = port_named(outputs, r.port) {
            let k = outputs.index_of(p);
            assert(outputs[k] == p);
        } else {
            assert(outputs[0].key != r.port);
        }
    }
}

/// Whether a connection makes one node wait for another.
pub open spec fn waits(g: GraphView, e: EdgeView, a: int, b: int) -> bool {
    &&& !from_before(g, e.from)
    &&& g.nodes.dom().contains(e.from.node)
    &&& g.nodes.dom().contains(e.to.node)
    &&& g.ids.index_of(e.from.node) == a
    &&& g.ids.index_of(e.to.node) == b
}

/// A node waits for the one that a connection comes from, unless what comes is from before: a
/// graph may lead back into itself through a delay or through the speed of a fan, and in no
/// other way.
pub proof fn nodes_wait_for_what_feeds_them(g: GraphView, n: nat, a: int, b: int)
    requires
        n <= g.edges.len(),
    ensures
        dependencies(g, n).contains((a, b)) <==> exists|i: int|
            0 <= i < n && waits(g, #[trigger] g.edges[i], a, b),
    decreases n,
{
    if n > 0 {
        let m = (n - 1) as nat;
        nodes_wait_for_what_feeds_them(g, m, a, b);
        let before = dependencies(g, m);
        let after = dependencies(g, n);
        let e = g.edges[n - 1];
        lemma_from_before(g, e.from);
        if before.contains((a, b)) {
            assert(after[before.index_of((a, b))] == (a, b));
        }
        if waits(g, e, a, b) {
            assert(after[before.len() as int] == (a, b));
            assert(waits(g, g.edges[n - 1], a, b));
        }
        if after.contains((a, b)) && !before.contains((a, b)) {
            let k = after.index_of((a, b));
            if k < before.len() {
                assert(before[k] == (a, b));
            }
            assert(waits(g, g.edges[n - 1], a, b));
        }
        if exists|i: int| 0 <= i < n && waits(g, #[trigger] g.edges[i], a, b) {
            let i = choose|i: int| 0 <= i < n && waits(g, #[trigger] g.edges[i], a, b);
            if i < m {
                assert(before.contains((a, b)));
            }
        }
    }
}

// --- Types ---------------------------------------------------------------------------------------

/// What a declared type comes to where the variables of every node are given a quantity.
pub open spec fn meant(typing: spec_fn(PortKey) -> Quantity, node: Text, ty: TypeView) -> Quantity {
    match ty {
        TypeView::Concrete(q) => q,
        TypeView::Var(name) => typing(PortKey { node, port: name }),
    }
}

/// Whether a connection joins ports of one type, where both are there.
pub open spec fn joins(g: GraphView, typing: spec_fn(PortKey) -> Quantity, e: EdgeView) -> bool {
    match (g.declared(e.from), g.declared(e.to)) {
        (Some(a), Some(b)) => meant(typing, e.from.node, a) == meant(typing, e.to.node, b),
        _ => true,
    }
}

/// Whether quantities for the variables make every connection one of like to like.
pub open spec fn types_graph(g: GraphView, typing: spec_fn(PortKey) -> Quantity) -> bool {
    forall|i: int| 0 <= i < g.edges.len() ==> joins(g, typing, #[trigger] g.edges[i])
}

spec fn respects(c: Classes, typing: spec_fn(PortKey) -> Quantity) -> bool {
    &&& forall|k: PortKey| #[trigger] c.root.dom().contains(k) ==> typing(c.root[k]) == typing(k)
    &&& forall|k: PortKey| #[trigger] c.bound.dom().contains(k) ==> typing(k) == c.bound[k]
}

proof fn lemma_mentioned(c: Classes, typing: spec_fn(PortKey) -> Quantity, k: PortKey)
    requires
        respects(c, typing),
    ensures
        respects(c.mentioning(k), typing),
        c.mentioning(k).root.dom().contains(k),
        typing(c.mentioning(k).class(k)) == typing(k),
        c.mentioning(k).binding(k) matches Some(q) ==> q == typing(k),
{
    let m = c.mentioning(k);
    assert forall|x: PortKey| #[trigger] m.root.dom().contains(x) implies typing(m.root[x]) == typing(
        x,
    ) by {
        assert(x != k ==> c.root.dom().contains(x));
    }
}

proof fn lemma_typed_edge(
    g: GraphView,
    c: Classes,
    typing: spec_fn(PortKey) -> Quantity,
    e: EdgeView,
)
    requires
        respects(c, typing),
        joins(g, typing, e),
    ensures
        respects(unify_edge(g, c, e).0, typing),
        unify_edge(g, c, e).1 is None,
{
    match (g.declared(e.from), g.declared(e.to)) {
        (Some(from), Some(to)) => match (from, to) {
            (TypeView::Concrete(a), TypeView::Concrete(b)) => {},
            (TypeView::Concrete(a), TypeView::Var(name)) => {
                lemma_mentioned(c, typing, var(e.to.node, name));
            },
            (TypeView::Var(name), TypeView::Concrete(b)) => {
                lemma_mentioned(c, typing, var(e.from.node, name));
            },
            (TypeView::Var(x), TypeView::Var(y)) => {
                let a = var(e.from.node, x);
                let b = var(e.to.node, y);
                lemma_mentioned(c, typing, a);
                let m = c.mentioning(a);
                lemma_mentioned(m, typing, b);
                let n = m.mentioning(b);
                lemma_mentioned(n, typing, a);
                lemma_mentioned(n, typing, b);
                assert(n.mentioning(a) == n && n.mentioning(b) == n);
                let d = unify_edge(g, c, e).0;
                if n.class(a) != n.class(b) {
                    assert forall|k: PortKey| #[trigger] d.root.dom().contains(k) implies typing(
                        d.root[k],
                    ) == typing(k) by {
                        assert(n.root.dom().contains(k));
                    }
                    assert forall|k: PortKey| #[trigger] d.bound.dom().contains(k) implies typing(k)
                        == d.bound[k] by {
                        assert(k != n.class(a) ==> n.bound.dom().contains(k));
                    }
                }
            },
        },
        _ => {},
    }
}

proof fn lemma_typed(g: GraphView, typing: spec_fn(PortKey) -> Quantity, n: nat)
    requires
        n <= g.edges.len(),
        types_graph(g, typing),
    ensures
        respects(unified(g, n).0, typing),
        unified(g, n).1.len() == 0,
    decreases n,
{
    if n > 0 {
        let m = (n - 1) as nat;
        lemma_typed(g, typing, m);
        assert(joins(g, typing, g.edges[n - 1]));
        lemma_typed_edge(g, unified(g, m).0, typing, g.edges[n - 1]);
    }
}

/// A graph whose variables can be given quantities so that like is connected to like has no type
/// errors.
pub proof fn what_can_be_typed_has_no_type_errors(
    g: GraphView,
    typing: spec_fn(PortKey) -> Quantity,
)
    requires
        types_graph(g, typing),
    ensures
        type_errors(g).len() == 0,
{
    lemma_typed(g, typing, g.edges.len());
}

/// Inference decides nothing that could be otherwise: a type that it gives to a port is the one
/// the port has whatever its variables are taken to be.
pub proof fn no_type_is_made_up(
    g: GraphView,
    typing: spec_fn(PortKey) -> Quantity,
    r: PortKey,
)
    requires
        types_graph(g, typing),
        g.declared(r) is Some,
    ensures
        port_types(g).dom().contains(r),
        port_types(g)[r] matches Some(q) ==> q == meant(typing, r.node, g.declared(r)->0),
{
    lemma_typed(g, typing, g.edges.len());
    let c = unified(g, g.edges.len()).0;
    if let TypeView::Var(name) = g.declared(r)->0 {
        let k = var(r.node, name);
        assert(c.root.dom().contains(k) ==> typing(c.root[k]) == typing(k));
        assert(c.bound.dom().contains(c.class(k)) ==> typing(c.class(k)) == c.bound[c.class(k)]);
    }
}

/// A port of a concrete type has that type, whatever is connected to it.
pub proof fn concrete_types_stay(g: GraphView, r: PortKey)
    requires
        g.declared(r) matches Some(TypeView::Concrete(_)),
    ensures
        port_types(g)[r] == Some(g.declared(r)->0->Concrete_0),
{
    assert(port_types(g).dom().contains(r));
}

/// Whether a connection joins two concrete types that differ.
pub open spec fn clashes(g: GraphView, e: EdgeView, source_ty: Quantity, sink_ty: Quantity) -> bool {
    &&& g.declared(e.from) == Some(TypeView::Concrete(source_ty))
    &&& g.declared(e.to) == Some(TypeView::Concrete(sink_ty))
    &&& source_ty != sink_ty
}

proof fn lemma_mismatches(g: GraphView, n: nat, err: ErrorView)
    requires
        n <= g.edges.len(),
        err is TypeMismatch,
    ensures
        unified(g, n).1.contains(err) <==> exists|i: int|
            0 <= i < n && clashes(
                g,
                #[trigger] g.edges[i],
                err->source_ty,
                err->sink_ty,
            ) && g.edges[i].from == err->from && g.edges[i].to == err->to,
    decreases n,
{
    if n > 0 {
        let m = (n - 1) as nat;
        lemma_mismatches(g, m, err);
        let (c, before) = unified(g, m);
        let after = unified(g, n).1;
        let e = g.edges[n - 1];
        let made = unify_edge(g, c, e).1;
        if before.contains(err) {
            assert(after[before.index_of(err)] == err);
        }
        if made == Some(err) {
            assert(after.last() == err);
        }
        if after.contains(err) && !before.contains(err) {
            let k = after.index_of(err);
            if k < before.len() {
                assert(before[k] == err);
            }
            assert(made == Some(err));
        }
        assert(made == Some(err) <==> clashes(g, e, err->source_ty, err->sink_ty) && e.from
            == err->from && e.to == err->to);
        if exists|i: int|
            0 <= i < n && clashes(g, #[trigger] g.edges[i], err->source_ty, err->sink_ty)
                && g.edges[i].from == err->from && g.edges[i].to == err->to {
            let i = choose|i: int|
                0 <= i < n && clashes(g, #[trigger] g.edges[i], err->source_ty, err->sink_ty)
                    && g.edges[i].from == err->from && g.edges[i].to == err->to;
            if i < m {
                assert(before.contains(err));
            }
        }
        if made == Some(err) {
            assert(clashes(g, g.edges[n - 1], err->source_ty, err->sink_ty));
        }
    }
}

/// Every connection of two concrete types that differ is reported, with its ends and their types
/// the right way round, and no other is reported so.
pub proof fn connections_of_unlike_types_are_reported(g: GraphView, err: ErrorView)
    requires
        err is TypeMismatch,
    ensures
        type_errors(g).contains(err) <==> exists|i: int|
            0 <= i < g.edges.len() && clashes(
                g,
                #[trigger] g.edges[i],
                err->source_ty,
                err->sink_ty,
            ) && g.edges[i].from == err->from && g.edges[i].to == err->to,
{
    lemma_mismatches(g, g.edges.len(), err);
}

// --- Sensors -------------------------------------------------------------------------------------

/// Whether a node reads a sensor.
pub open spec fn reads_sensor(g: GraphView, i: int, sensor: Text, quantity: Quantity) -> bool {
    g.nodes[g.ids[i]].kind == (KindView::Sensor { sensor_id: sensor, quantity })
}

/// A graph needs the sensors that its nodes read, and no others, each for what the last of those
/// nodes takes it to measure.
pub proof fn a_graph_needs_what_its_nodes_read(g: GraphView, n: nat, sensor: Text)
    requires
        n <= g.ids.len(),
    ensures
        sensors_of(g, n).dom().contains(sensor) <==> exists|i: int, q: Quantity|
            0 <= i < n && #[trigger] reads_sensor(g, i, sensor, q),
        sensors_of(g, n).dom().contains(sensor) ==> exists|i: int|
            0 <= i < n && #[trigger] reads_sensor(g, i, sensor, sensors_of(g, n)[sensor])
                && forall|j: int, q: Quantity| i < j < n ==> !#[trigger] reads_sensor(g, j, sensor, q),
    decreases n,
{
    if n > 0 {
        let m = (n - 1) as nat;
        a_graph_needs_what_its_nodes_read(g, m, sensor);
        let before = sensors_of(g, m);
        let after = sensors_of(g, n);
        let last = n - 1;
        if exists|q: Quantity| #[trigger] reads_sensor(g, last, sensor, q) {
            let q = choose|q: Quantity| #[trigger] reads_sensor(g, last, sensor, q);
            assert(reads_sensor(g, n - 1, sensor, q));
            assert(after[sensor] == q);
        } else {
            if let KindView::Sensor { sensor_id, quantity } = g.nodes[g.ids[last]].kind {
                assert(reads_sensor(g, last, sensor_id, quantity));
            }
            assert(after.dom().contains(sensor) == before.dom().contains(sensor));
            if before.dom().contains(sensor) {
                assert(after[sensor] == before[sensor]);
                let i = choose|i: int|
                    0 <= i < m && #[trigger] reads_sensor(g, i, sensor, before[sensor])
                        && forall|j: int, q: Quantity|
                        i < j < m ==> !#[trigger] reads_sensor(g, j, sensor, q);
                assert(reads_sensor(g, i, sensor, after[sensor]));
                assert forall|j: int, q: Quantity| i < j < n implies !#[trigger] reads_sensor(
                    g,
                    j,
                    sensor,
                    q,
                ) by {}
            }
            if exists|i: int, q: Quantity| 0 <= i < n && #[trigger] reads_sensor(g, i, sensor, q) {
                let (i, q) = choose|i: int, q: Quantity|
                    0 <= i < n && #[trigger] reads_sensor(g, i, sensor, q);
                assert(i < m);
                assert(reads_sensor(g, i, sensor, q));
            }
        }
    }
}

// --- What a chip could run -----------------------------------------------------------------------

/// Whether a node changes a duty in a way that a curve can take over.
pub open spec fn folds(kind: KindView) -> bool {
    kind is Clamp || kind is Offset || kind is Scale
}

/// Whether a list of nodes leads back from a node along what feeds each, through nodes that fold.
pub open spec fn leads_back(g: GraphView, path: Seq<Text>) -> bool {
    &&& path.len() > 0
    &&& forall|i: int| 0 <= i < path.len() ==> g.nodes.dom().contains(#[trigger] path[i])
    &&& forall|i: int|
        0 <= i < path.len() - 1 ==> folds(g.nodes[#[trigger] path[i]].kind) && source_of(
            g,
            path[i],
            "in"@,
        ) == Some(path[i + 1])
}

/// Whether a duty path ends here: at a constant, or at a curve that follows a sensor directly.
pub open spec fn settles(g: GraphView, id: Text) -> bool {
    ||| g.nodes[id].kind is Constant
    ||| g.nodes[id].kind is Curve && (source_of(g, id, "in"@) matches Some(source)
        && g.nodes[source].kind is Sensor)
}

proof fn lemma_folded(g: GraphView, node: Text, fuel: nat) -> (path: Seq<Text>)
    requires
        g.nodes.dom().contains(node),
        fuel > 0,
    ensures
        leads_back(g, path),
        path[0] == node,
        path.len() <= fuel,
        folded(g, node, fuel).0 is Some <==> settles(g, path.last()),
        folded(g, node, fuel).0 is Some <==> folded(g, node, fuel).1.len() == 0,
        folded(g, node, fuel).0 is None ==> {
            let found = folded(g, node, fuel).1;
            &&& found.len() == 1
            &&& found[0].node is Some
            &&& blocks(g, path.last(), found[0]) || path.len() == fuel
        },
    decreases fuel,
{
    reveal_with_fuel(folded, 2);
    let kind = g.nodes[node].kind;
    if folds(kind) && fuel > 1 && source_of(g, node, "in"@) is Some {
        let source = source_of(g, node, "in"@)->0;
        let rest = lemma_folded(g, source, (fuel - 1) as nat);
        let path = seq![node] + rest;
        assert forall|i: int| 0 <= i < path.len() implies g.nodes.dom().contains(
            #[trigger] path[i],
        ) by {
            if i > 0 {
                assert(path[i] == rest[i - 1]);
            }
        }
        assert forall|i: int| 0 <= i < path.len() - 1 implies folds(
            g.nodes[#[trigger] path[i]].kind,
        ) && source_of(g, path[i], "in"@) == Some(path[i + 1]) by {
            if i > 0 {
                assert(path[i] == rest[i - 1]);
                assert(path[i + 1] == rest[i]);
            } else {
                assert(path[1] == rest[0]);
            }
        }
        assert(path.last() == rest.last());
        path
    } else {
        let path = seq![node];
        assert(path.last() == node);
        path
    }
}

/// Whether an obstacle is what stands in the way at a node: nothing feeds what has to be fed;
/// several inputs are combined; the step has no equivalent, with what resembles it where
/// something does; or a curve follows something else than a sensor.
pub open spec fn blocks(g: GraphView, id: Text, o: ObstacleView) -> bool {
    let kind = g.nodes[id].kind;
    let source = source_of(g, id, "in"@);
    if folds(kind) {
        source is None && o.node == Some(id) && o.kind is NothingConnected
    } else if kind is Mix {
        o.node == Some(id) && o.kind is CombinesInputs
    } else if kind is Curve {
        match source {
            None => o.node == Some(id) && o.kind is NothingConnected,
            Some(s) => {
                let fed = g.nodes[s].kind;
                &&& o.node == Some(s)
                &&& if fed is Mix {
                    o.kind is CombinesInputs
                } else if fed is Hold || fed is LowPass || fed is RateLimit || fed is MovingAverage {
                    o.kind matches WhyView::Unsupported { chip_alternative, .. }
                        && chip_alternative is Some
                } else {
                    o.kind is CurveInputIsNotASensor
                }
            },
        }
    } else {
        o.node == Some(id) && (o.kind matches WhyView::Unsupported { chip_alternative, .. } && (
        chip_alternative is Some <==> kind is Hold || kind is LowPass || kind is RateLimit
            || kind is MovingAverage))
    }
}

/// A channel reduces to something a chip could run exactly where one output drives it, and the
/// way back from that output leads through nothing but steps that fold to a constant, or to a
/// curve that follows a sensor directly.
pub proof fn what_folds_to_a_sensor_or_a_constant_reduces(g: GraphView, channel: Text)
    requires
        g.wf(),
        g.ids.len() > 0,
        outputs_naming(g, channel, g.ids.len()).len() == 1,
        source_of(g, outputs_naming(g, channel, g.ids.len())[0], "duty"@) is Some,
    ensures
        exists|path: Seq<Text>| #[trigger]
            leads_back(g, path) && source_of(
                g,
                outputs_naming(g, channel, g.ids.len())[0],
                "duty"@,
            ) == Some(path[0]) && (reduced(g, channel) is Ok <==> settles(g, path.last())) && (
            reduced(g, channel) matches Err(list) ==> list.len() == 1 && (blocks(
                g,
                path.last(),
                list[0],
            ) || path.len() == g.ids.len())),
{
    let fan = outputs_naming(g, channel, g.ids.len())[0];
    let source = source_of(g, fan, "duty"@)->0;
    let path = lemma_folded(g, source, g.ids.len());
    assert(leads_back(g, path));
}

/// A channel that nothing drives, that two outputs drive, or whose output has nothing connected
/// to it is refused for that.
pub proof fn what_is_not_driven_by_one_output_is_refused(g: GraphView, channel: Text)
    requires
        g.wf(),
    ensures
        !g.drives(channel) ==> (reduced(g, channel) matches Err(list) && list.len() == 1
            && list[0].kind is NotDriven),
        outputs_naming(g, channel, g.ids.len()).len() > 1 ==> (reduced(g, channel) matches Err(list)
            && list.len() == 1 && list[0].kind is DrivenTwice),
{
    let outputs = outputs_naming(g, channel, g.ids.len());
    lemma_naming(g, channel, g.ids.len());
    if outputs.len() > 0 {
        assert(g.nodes.dom().contains(outputs[0]));
        assert(g.drives(channel));
    }
}

} // verus!
