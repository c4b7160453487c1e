//! Type inference over the graph.
//!
//! Generic nodes declare their ports as type variables. Inference decides what each
//! variable is by unifying across connections, anchored by the concrete types at the edges
//! of the graph:
//!
//! - **concrete and concrete** must be equal, or the connection is a type error.
//! - **variable and concrete** binds the variable's whole class to that quantity; a
//!   conflict with an existing binding is reported against the node.
//! - **variable and variable** merges the two classes, carrying any binding across.
//!
//! A class that ends with no binding is unconstrained. That is **not** an error: a chain of
//! generic nodes with nothing concrete attached yet is a normal half-built graph.
//!
//! Variables are scoped per node, so two clamps each using `T` are independent until
//! something connects them.
use crate::graph::{error_views, find_port, lemma_port_named, port_named, lemma_port_named_append, report, EdgeView, ErrorView, Graph, GraphError, GraphView, NodeId, PortKey, PortRef};
use crate::node::{port_keys_are_distinct, port_views, ports, NodeSpec, PortSpec, PortType, PortView, TypeView};
use crate::ordmap::OrdMap;
use crate::text::Text;
use crate::units::Quantity;
use vstd::prelude::*;

verus! {

/// The resolved type of every port in the graph.
///
/// `None` means the port is generic and nothing has decided it yet.
pub type PortTypes = OrdMap<PortRef, Option<Quantity>>;

// --- Classes of variables ------------------------------------------------------------------

/// Variables sorted into classes: where each one's class stands, and what classes are bound
/// to. A variable is named by its node and its own name; one that nothing has mentioned is
/// a class of its own.
#[verifier::ext_equal]
pub struct Classes {
    pub root: Map<PortKey, PortKey>,
    pub bound: Map<PortKey, Quantity>,
}

/// Two quantities that cannot both be meant.
pub type Clash = Option<(Quantity, Quantity)>;

impl Classes {
    /// No variable mentioned.
    pub open spec fn none() -> Classes {
        Classes { root: Map::empty(), bound: Map::empty() }
    }

    /// The class of a variable.
    pub open spec fn class(self, k: PortKey) -> PortKey {
        if self.root.dom().contains(k) {
            self.root[k]
        } else {
            k
        }
    }

    /// What a variable is bound to.
    pub open spec fn binding(self, k: PortKey) -> Option<Quantity> {
        if self.bound.dom().contains(self.class(k)) {
            Some(self.bound[self.class(k)])
        } else {
            None
        }
    }

    /// With a variable mentioned.
    pub open spec fn mentioning(self, k: PortKey) -> Classes {
        if self.root.dom().contains(k) {
            self
        } else {
            Classes { root: self.root.insert(k, k), ..self }
        }
    }

    /// Binds a variable's class to a quantity; a class already bound to another one clashes.
    pub open spec fn bind(self, k: PortKey, q: Quantity) -> (Classes, Clash) {
        let c = self.mentioning(k);
        match c.binding(k) {
            Some(existing) => (c, if existing != q { Some((existing, q)) } else { None }),
            None => (Classes { bound: c.bound.insert(c.class(k), q), ..c }, None),
        }
    }

    /// Merges two variables' classes; classes bound to different quantities clash.
    pub open spec fn unite(self, a: PortKey, b: PortKey) -> (Classes, Clash) {
        let c = self.mentioning(a).mentioning(b);
        let ra = c.class(a);
        let rb = c.class(b);
        if ra == rb {
            (c, None)
        } else if c.binding(a) is Some && c.binding(b) is Some && c.binding(a) != c.binding(b) {
            (c, Some((c.binding(a)->0, c.binding(b)->0)))
        } else {
            let carried = if c.binding(a) is Some {
                c.binding(a)
            } else {
                c.binding(b)
            };
            let kept = c.bound.remove(rb);
            (
                Classes {
                    root: c.root.map_values(|r: PortKey| if r == rb { ra } else { r }),
                    bound: match carried {
                        Some(q) => kept.insert(ra, q),
                        None => kept,
                    },
                },
                None,
            )
        }
    }

    /// Every class stands at a variable that was mentioned and belongs to it.
    pub open spec fn wf(self) -> bool {
        forall|k: PortKey| #[trigger]
            self.root.dom().contains(k) ==> self.root.dom().contains(self.root[k])
                && self.root[self.root[k]] == self.root[k]
    }
}

/// The variable of a node.
pub open spec fn var(node: Text, name: Text) -> PortKey {
    PortKey { node, port: name }
}

/// What a connection does to the classes, and the error it makes.
pub open spec fn unify_edge(g: GraphView, c: Classes, e: EdgeView) -> (Classes, Option<ErrorView>) {
    match (g.declared(e.from), g.declared(e.to)) {
        (Some(from), Some(to)) => match (from, to) {
            (TypeView::Concrete(a), TypeView::Concrete(b)) => (
                c,
                if a != b {
                    Some(
                        ErrorView::TypeMismatch {
                            from: e.from,
                            to: e.to,
                            source_ty: a,
                            sink_ty: b,
                        },
                    )
                } else {
                    None
                },
            ),
            (TypeView::Concrete(a), TypeView::Var(name)) => {
                let (c2, clash) = c.bind(var(e.to.node, name), a);
                (c2, conflict(e.to.node, clash))
            },
            (TypeView::Var(name), TypeView::Concrete(b)) => {
                let (c2, clash) = c.bind(var(e.from.node, name), b);
                (c2, conflict(e.from.node, clash))
            },
            (TypeView::Var(a), TypeView::Var(b)) => {
                let (c2, clash) = c.unite(var(e.from.node, a), var(e.to.node, b));
                (c2, conflict(e.to.node, clash))
            },
        },
        _ => (c, None),
    }
}

/// A clash, reported against a node.
pub open spec fn conflict(node: Text, clash: Clash) -> Option<ErrorView> {
    match clash {
        Some((a, b)) => Some(ErrorView::TypeConflict { node, a, b }),
        None => None,
    }
}

/// The classes and the errors once the first `n` connections have been seen.
pub open spec fn unified(g: GraphView, n: nat) -> (Classes, Seq<ErrorView>)
    decreases n,
{
    if n == 0 {
        (Classes::none(), Seq::empty())
    } else {
        let (c, errors) = unified(g, (n - 1) as nat);
        let (c2, error) = unify_edge(g, c, g.edges[n - 1]);
        (
            c2,
            match error {
                Some(e) => errors.push(e),
                None => errors,
            },
        )
    }
}

/// What a declared type comes to.
pub open spec fn resolved(c: Classes, node: Text, ty: TypeView) -> Option<Quantity> {
    match ty {
        TypeView::Concrete(q) => Some(q),
        TypeView::Var(name) => c.binding(var(node, name)),
    }
}

/// The type of every port of the graph.
pub open spec fn port_types(g: GraphView) -> Map<PortKey, Option<Quantity>> {
    let c = unified(g, g.edges.len()).0;
    Map::new(
        |r: PortKey| g.declared(r) is Some,
        |r: PortKey| resolved(c, r.node, g.declared(r)->0),
    )
}

/// Every connection and node whose types cannot agree.
pub open spec fn type_errors(g: GraphView) -> Seq<ErrorView> {
    unified(g, g.edges.len()).1
}

// --- Unifying ------------------------------------------------------------------------------

/// What a map of port references says.
pub open spec fn port_keys(m: Map<PortKey, PortRef>) -> Map<PortKey, PortKey> {
    m.map_values(|r: PortRef| r@)
}

/// Variables sorted into classes.
struct Unifier {
    root: OrdMap<PortRef, PortRef>,
    bound: OrdMap<PortRef, Quantity>,
}

impl View for Unifier {
    type V = Classes;

    closed spec fn view(&self) -> Classes {
        Classes { root: port_keys(self.root@), bound: self.bound@ }
    }
}

impl Unifier {
    fn new() -> (r: Unifier)
        ensures
            r@ == Classes::none(),
    {
        let r = Unifier { root: OrdMap::new(), bound: OrdMap::new() };
        assert(r@ =~= Classes::none());
        r
    }

    fn class(&self, k: &PortRef) -> (r: PortRef)
        ensures
            r@ == self@.class(k@),
    {
        match self.root.get(k) {
            Some(r) => r.copy(),
            None => k.copy(),
        }
    }

    fn binding_of(&self, k: &PortRef) -> (r: Option<Quantity>)
        ensures
            r == self@.binding(k@),
    {
        match self.bound.get(&self.class(k)) {
            Some(q) => Some(*q),
            None => None,
        }
    }

    fn mention(&mut self, k: &PortRef)
        ensures
            final(self)@ == old(self)@.mentioning(k@),
    {
        if !self.root.contains_key(k) {
            let ghost before = self@;
            self.root.insert(k.copy(), k.copy());
            assert(self@ =~= before.mentioning(k@));
        }
    }

    /// Binds a variable's class to a quantity.
    ///
    /// Returns the conflicting pair when the class already resolved to something else.
    fn bind(&mut self, k: &PortRef, q: Quantity) -> (r: Clash)
        ensures
            (final(self)@, r) == old(self)@.bind(k@, q),
    {
        self.mention(k);
        match self.binding_of(k) {
            Some(existing) => {
                if existing != q {
                    Some((existing, q))
                } else {
                    None
                }
            },
            None => {
                let class = self.class(k);
                self.bound.insert(class, q);
                None
            },
        }
    }

    /// Points every variable of one class at another.
    fn repoint(&mut self, from: &PortRef, to: &PortRef)
        ensures
            final(self)@ == (Classes {
                root: old(self)@.root.map_values(|r: PortKey| if r == from@ { to@ } else { r }),
                ..old(self)@
            }),
    {
        let ghost before = self@;
        let ghost start = self.root@;
        let ghost names = self.root.names();
        let n: usize = self.root.len();
        proof {
            use_type_invariant(&self.root);
            self.root.lemma_wf();
        }
        for i in 0..n
            invariant
                n == names.len(),
                names.no_duplicates(),
                self.root.names() == names,
                self.bound@ == before.bound,
                self.root@.dom() =~= start.dom(),
                forall|j: int|
                    0 <= j < i ==> (self.root@[#[trigger] names[j]])@ == if start[names[j]]@ == from@ {
                        to@
                    } else {
                        start[names[j]]@
                    },
                forall|j: int| i <= j < n ==> self.root@[#[trigger] names[j]] == start[names[j]],
                forall|j: int| 0 <= j < n ==> start.dom().contains(#[trigger] names[j]),
        {
            if self.root.value_at(i).is_port(from) {
                *self.root.value_mut(i) = to.copy();
            }
        }
        proof {
            use_type_invariant(&self.root);
            self.root.lemma_wf();
            let target = before.root.map_values(|r: PortKey| if r == from@ { to@ } else { r });
            assert forall|k: PortKey| #[trigger] self@.root.dom().contains(k) implies self@.root[k]
                == target[k] by {
                let j = names.index_of(k);
                assert(names[j] == k);
                assert(start[k]@ == before.root[k]);
            }
            assert(self@.root =~= target);
        }
    }

    /// Merges two variables' classes.
    fn union(&mut self, a: &PortRef, b: &PortRef) -> (r: Clash)
        ensures
            (final(self)@, r) == old(self)@.unite(a@, b@),
    {
        self.mention(a);
        self.mention(b);
        let ra = self.class(a);
        let rb = self.class(b);
        if ra.is_port(&rb) {
            return None;
        }
        let x = self.binding_of(a);
        let y = self.binding_of(b);
        if let (Some(qa), Some(qb)) = (x, y) {
            if qa != qb {
                return Some((qa, qb));
            }
        }
        let carried = match x {
            Some(q) => Some(q),
            None => y,
        };
        self.repoint(&rb, &ra);
        self.bound.remove(&rb);
        if let Some(q) = carried {
            self.bound.insert(ra, q);
        }
        None
    }
}

/// The declared type of a port, if the port exists.
fn port_type(graph: &Graph, r: &PortRef) -> (ty: Option<PortType>)
    ensures
        match ty {
            Some(t) => graph@.declared(r@) == Some(t@),
            None => graph@.declared(r@) is None,
        },
{
    let node = match graph.nodes.get(&r.node) {
        Some(n) => n,
        None => return None,
    };
    let spec = node.kind.spec();
    proof {
        lemma_port_named_append(spec@.inputs, spec@.outputs, r.port@);
    }
    match find_port(&spec.inputs, r.port.as_str()) {
        Some(p) => Some(p.ty),
        None => match find_port(&spec.outputs, r.port.as_str()) {
            Some(p) => Some(p.ty),
            None => None,
        },
    }
}

/// Reports a clash against a node.
fn report_clash(errors: &mut Vec<GraphError>, node: &NodeId, clash: Clash)
    ensures
        error_views(final(errors)@) == match conflict(node@, clash) {
            Some(e) => error_views(old(errors)@).push(e),
            None => error_views(old(errors)@),
        },
{
    if let Some((a, b)) = clash {
        report(errors, GraphError::TypeConflict { node: node.copy(), a, b });
    }
}

/// Inputs, then outputs, in one list.
fn all_ports(spec: NodeSpec) -> (r: Vec<PortSpec>)
    ensures
        port_views(r@) == spec@.all(),
{
    let ghost view = spec@;
    let mut list = spec.inputs;
    let mut outputs = spec.outputs;
    list.append(&mut outputs);
    assert(port_views(list@) =~= view.all());
    list
}

/// Resolves the ports of one node.
fn resolve_node(types: &mut PortTypes, unifier: &Unifier, id: &NodeId, list: &Vec<PortSpec>)
    requires
        forall|i: int, j: int|
            0 <= i < j < list@.len() ==> (#[trigger] list@[i])@.key != (#[trigger] list@[j])@.key,
        forall|r: PortKey| #[trigger] old(types)@.dom().contains(r) ==> r.node != id@,
    ensures
        forall|r: PortKey|
            #![trigger final(types)@.dom().contains(r)]
            final(types)@.dom().contains(r) <==> old(types)@.dom().contains(r) || (r.node == id@
                && port_named_in(port_views(list@), r.port)),
        forall|r: PortKey| #[trigger]
            old(types)@.dom().contains(r) ==> final(types)@[r] == old(types)@[r],
        forall|j: int|
            0 <= j < list@.len() ==> final(types)@[var(id@, (#[trigger] list@[j])@.key)]
                == resolved(unifier@, id@, list@[j]@.ty),
{
    let n: usize = list.len();
    let ghost start = types@;
    for i in 0..n
        invariant
            n == list@.len(),
            forall|a: int, b: int|
                0 <= a < b < list@.len() ==> (#[trigger] list@[a])@.key != (#[trigger] list@[b])@.key,
            forall|r: PortKey| #[trigger] start.dom().contains(r) ==> r.node != id@,
            forall|r: PortKey|
                #![trigger types@.dom().contains(r)]
                types@.dom().contains(r) <==> start.dom().contains(r) || (r.node == id@
                    && exists|j: int| 0 <= j < i && (#[trigger] list@[j])@.key == r.port),
            forall|r: PortKey| #[trigger] start.dom().contains(r) ==> types@[r] == start[r],
            forall|j: int|
                0 <= j < i ==> types@[var(id@, (#[trigger] list@[j])@.key)] == resolved(
                    unifier@,
                    id@,
                    list@[j]@.ty,
                ),
    {
        let port = list[i];
        let answer = match port.ty {
            PortType::Concrete(q) => Some(q),
            PortType::Var(name) => unifier.binding_of(&PortRef::new(id.0.as_str(), name)),
        };
        types.insert(PortRef::new(id.0.as_str(), port.key), answer);
    }
    proof {
        let views = port_views(list@);
        assert forall|key: Text| port_named_in(views, key) <==> exists|j: int|
            0 <= j < n && (#[trigger] list@[j])@.key == key by {
            if port_named_in(views, key) {
                let j = choose|j: int| 0 <= j < views.len() && (#[trigger] views[j]).key == key;
                assert(list@[j]@.key == key);
            }
            if exists|j: int| 0 <= j < n && (#[trigger] list@[j])@.key == key {
                let j = choose|j: int| 0 <= j < n && (#[trigger] list@[j])@.key == key;
                assert(views[j].key == key);
            }
        }
    }
}

/// Whether a list has a port with a key.
spec fn port_named_in(list: Seq<PortView>, key: Text) -> bool {
    exists|j: int| 0 <= j < list.len() && (#[trigger] list[j]).key == key
}

/// Infers every port's type, reporting connections and nodes whose types cannot agree.
///
/// Edges referring to ports that do not exist are skipped; validation reports those.
pub fn infer(graph: &Graph) -> (r: (PortTypes, Vec<GraphError>))
    ensures
        r.0@ == port_types(graph@),
        error_views(r.1@) == type_errors(graph@),
{
    let mut unifier = Unifier::new();
    let mut errors: Vec<GraphError> = Vec::new();
    assert(error_views(errors@) =~= Seq::empty());
    let m: usize = graph.edges.len();
    for i in 0..m
        invariant
            m == graph@.edges.len(),
            m == graph.edges@.len(),
            (unifier@, error_views(errors@)) == unified(graph@, i as nat),
    {
        let edge = &graph.edges[i];
        assert(graph@.edges[i as int] == edge@);
        let from = port_type(graph, &edge.from);
        let to = port_type(graph, &edge.to);
        if let (Some(from), Some(to)) = (from, to) {
            match from {
                PortType::Concrete(a) => match to {
                    PortType::Concrete(b) => {
                        if a != b {
                            report(
                                &mut errors,
                                GraphError::TypeMismatch {
                                    from: edge.from.copy(),
                                    to: edge.to.copy(),
                                    source_ty: a,
                                    sink_ty: b,
                                },
                            );
                        }
                    },
                    PortType::Var(name) => {
                        let key = PortRef::new(edge.to.node.0.as_str(), name);
                        let clash = unifier.bind(&key, a);
                        report_clash(&mut errors, &edge.to.node, clash);
                    },
                },
                PortType::Var(name) => match to {
                    PortType::Concrete(b) => {
                        let key = PortRef::new(edge.from.node.0.as_str(), name);
                        let clash = unifier.bind(&key, b);
                        report_clash(&mut errors, &edge.from.node, clash);
                    },
                    PortType::Var(other) => {
                        let ka = PortRef::new(edge.from.node.0.as_str(), name);
                        let kb = PortRef::new(edge.to.node.0.as_str(), other);
                        let clash = unifier.union(&ka, &kb);
                        report_clash(&mut errors, &edge.to.node, clash);
                    },
                },
            }
        }
    }
    let ghost classes = unifier@;
    let ghost g = graph@;
    proof {
        use_type_invariant(&graph.nodes);
        graph.lemma_wf();
    }
    // Read the answer back out for every port.
    let mut types: PortTypes = OrdMap::new();
    let n: usize = graph.nodes.len();
    for i in 0..n
        invariant
            n == g.ids.len(),
            g == graph@,
            g.wf(),
            classes == unifier@,
            forall|r: PortKey|
                #![trigger types@.dom().contains(r)]
                types@.dom().contains(r) <==> (g.declared(r) is Some && exists|k: int|
                    0 <= k < i && #[trigger] g.ids[k] == r.node),
            forall|r: PortKey| #[trigger]
                types@.dom().contains(r) ==> types@[r] == resolved(
                    classes,
                    r.node,
                    g.declared(r)->0,
                ),
    {
        let id = graph.nodes.key_at(i);
        let node = graph.nodes.value_at(i);
        assert(node@ == g.nodes[id@]);
        let list = all_ports(node.kind.spec());
        let ghost views = port_views(list@);
        let ghost before = types@;
        proof {
            port_keys_are_distinct(node.kind@);
            assert(views == ports(node.kind@).all());
            assert forall|a: int, b: int| 0 <= a < b < list@.len() implies (#[trigger] list@[a])@.key
                != (#[trigger] list@[b])@.key by {
                assert(views[a] == list@[a]@);
                assert(views[b] == list@[b]@);
            }
            assert forall|r: PortKey| #[trigger] types@.dom().contains(r) implies r.node != id@ by {
                let k = choose|k: int| 0 <= k < i && #[trigger] g.ids[k] == r.node;
            }
        }
        resolve_node(&mut types, &unifier, id, &list);
        proof {
            assert forall|r: PortKey|
                #![trigger types@.dom().contains(r)]
                types@.dom().contains(r) <==> (g.declared(r) is Some && exists|k: int|
                    0 <= k < i + 1 && #[trigger] g.ids[k] == r.node) by {
                lemma_port_named(views, r.port);
                if types@.dom().contains(r) {
                    if before.dom().contains(r) {
                        let k = choose|k: int| 0 <= k < i && #[trigger] g.ids[k] == r.node;
                        assert(0 <= k < i + 1);
                    } else {
                        assert(g.ids[i as int] == r.node);
                    }
                }
                if g.declared(r) is Some && exists|k: int| 0 <= k < i + 1 && #[trigger] g.ids[k]
                    == r.node {
                    let k = choose|k: int| 0 <= k < i + 1 && #[trigger] g.ids[k] == r.node;
                    if k == i {
                        let p = port_named(views, r.port)->0;
                        let j = choose|j: int| 0 <= j < views.len() && views[j] == p;
                        assert(views[j].key == r.port);
                    } else {
                        assert(0 <= k < i);
                    }
                }
            }
            assert forall|r: PortKey| #[trigger] types@.dom().contains(r) implies types@[r]
                == resolved(classes, r.node, g.declared(r)->0) by {
                if !before.dom().contains(r) {
                    lemma_port_named(views, r.port);
                    let p = port_named(views, r.port)->0;
                    let j = choose|j: int| 0 <= j < views.len() && views[j] == p;
                    assert(list@[j]@ == p);
                    assert(var(id@, list@[j]@.key) == r);
                }
            }
        }
    }
    proof {
        assert forall|r: PortKey| #[trigger] types@.dom().contains(r) <==> port_types(
            g,
        ).dom().contains(r) by {
            if g.declared(r) is Some {
                assert(g.nodes.dom().contains(r.node));
                let k = g.ids.index_of(r.node);
                assert(g.ids[k] == r.node);
            }
        }
        assert(types@ =~= port_types(g));
    }
    (types, errors)
}

// --- Laws ------------------------------------------------------------------------------------

/// Whether the two ends of a connection are known to carry the same thing.
spec fn agreed(g: GraphView, c: Classes, e: EdgeView) -> bool {
    match (g.declared(e.from), g.declared(e.to)) {
        (Some(from), Some(to)) => match (from, to) {
            (TypeView::Concrete(a), TypeView::Concrete(b)) => a == b,
            (TypeView::Concrete(a), TypeView::Var(name)) => c.binding(var(e.to.node, name)) == Some(
                a,
            ),
            (TypeView::Var(name), TypeView::Concrete(b)) => c.binding(var(e.from.node, name))
                == Some(b),
            (TypeView::Var(a), TypeView::Var(b)) => {
                let ka = var(e.from.node, a);
                let kb = var(e.to.node, b);
                &&& c.root.dom().contains(ka)
                &&& c.root.dom().contains(kb)
                &&& c.class(ka) == c.class(kb)
            },
        },
        _ => true,
    }
}

/// Classes only grow: what is bound stays bound, what is merged stays merged.
spec fn grows(c: Classes, d: Classes) -> bool {
    &&& d.wf()
    &&& forall|k: PortKey| #[trigger] c.root.dom().contains(k) ==> d.root.dom().contains(k)
    &&& forall|k: PortKey| #![trigger d.binding(k)] c.binding(k) is Some ==> d.binding(k) == c.binding(k)
    &&& forall|a: PortKey, b: PortKey|
        #![trigger d.class(a), d.class(b)]
        c.root.dom().contains(a) && c.root.dom().contains(b) && c.class(a) == c.class(b)
            ==> d.class(a) == d.class(b)
}

proof fn lemma_mentioning(c: Classes, k: PortKey)
    requires
        c.wf(),
    ensures
        grows(c, c.mentioning(k)),
        c.mentioning(k).root.dom().contains(k),
{
    let d = c.mentioning(k);
    assert forall|x: PortKey| #[trigger] d.root.dom().contains(x) implies d.root.dom().contains(
        d.root[x],
    ) && d.root[d.root[x]] == d.root[x] by {
        if x != k && c.root.dom().contains(x) {
            assert(c.root.dom().contains(c.root[x]));
        }
    }
}

proof fn lemma_grows_trans(a: Classes, b: Classes, c: Classes)
    requires
        grows(a, b),
        grows(b, c),
    ensures
        grows(a, c),
{
    assert forall|k: PortKey| a.binding(k) is Some implies #[trigger] c.binding(k) == a.binding(
        k,
    ) by {
        assert(b.binding(k) == a.binding(k));
    }
    assert forall|x: PortKey, y: PortKey|
        #![trigger c.class(x), c.class(y)]
        a.root.dom().contains(x) && a.root.dom().contains(y) && a.class(x) == a.class(y) implies c.class(x)
        == c.class(y) by {
        assert(b.class(x) == b.class(y));
    }
}

proof fn lemma_bind(c: Classes, k: PortKey, q: Quantity)
    requires
        c.wf(),
    ensures
        grows(c, c.bind(k, q).0),
        c.bind(k, q).1 is None ==> c.bind(k, q).0.binding(k) == Some(q),
{
    lemma_mentioning(c, k);
    let m = c.mentioning(k);
    let d = c.bind(k, q).0;
    assert(d.root == m.root);
    assert(d.wf()) by {
        assert forall|x: PortKey| #[trigger] d.root.dom().contains(x) implies d.root.dom().contains(
            d.root[x],
        ) && d.root[d.root[x]] == d.root[x] by {
            assert(m.root.dom().contains(x));
        }
    }
    assert(grows(m, d));
    lemma_grows_trans(c, m, d);
}

proof fn lemma_unite(c: Classes, a: PortKey, b: PortKey)
    requires
        c.wf(),
    ensures
        grows(c, c.unite(a, b).0),
        c.unite(a, b).0.root.dom().contains(a),
        c.unite(a, b).0.root.dom().contains(b),
        c.unite(a, b).1 is None ==> c.unite(a, b).0.class(a) == c.unite(a, b).0.class(b),
{
    lemma_mentioning(c, a);
    let ma = c.mentioning(a);
    lemma_mentioning(ma, b);
    let m = ma.mentioning(b);
    lemma_grows_trans(c, ma, m);
    let d = c.unite(a, b).0;
    let ra = m.class(a);
    let rb = m.class(b);
    assert(m.root.dom().contains(a));
    assert(m.root.dom().contains(b));
    if ra != rb && c.unite(a, b).1 is None {
        assert(m.root.dom().contains(ra) && m.root[ra] == ra);
        assert(m.root.dom().contains(rb) && m.root[rb] == rb);
        assert forall|k: PortKey| #[trigger] m.root.dom().contains(k) implies d.root[k] == if m.root[k]
            == rb {
            ra
        } else {
            m.root[k]
        } by {}
        assert(d.wf()) by {
            assert forall|x: PortKey| #[trigger] d.root.dom().contains(x) implies d.root.dom().contains(
                d.root[x],
            ) && d.root[d.root[x]] == d.root[x] by {
                assert(m.root.dom().contains(x));
                assert(m.root.dom().contains(m.root[x]));
            }
        }
        assert forall|k: PortKey| m.binding(k) is Some implies #[trigger] d.binding(k) == m.binding(
            k,
        ) by {
            if !m.root.dom().contains(k) {
                assert(k != rb);
                assert(k != ra);
            }
        }
        assert(grows(m, d));
        lemma_grows_trans(c, m, d);
    } else {
        assert(d == m);
    }
}

proof fn lemma_unify_edge(g: GraphView, c: Classes, e: EdgeView)
    requires
        c.wf(),
    ensures
        grows(c, unify_edge(g, c, e).0),
        unify_edge(g, c, e).1 is None ==> agreed(g, unify_edge(g, c, e).0, e),
{
    match (g.declared(e.from), g.declared(e.to)) {
        (Some(from), Some(to)) => match (from, to) {
            (TypeView::Concrete(a), TypeView::Concrete(b)) => {},
            (TypeView::Concrete(a), TypeView::Var(name)) => {
                lemma_bind(c, var(e.to.node, name), a);
            },
            (TypeView::Var(name), TypeView::Concrete(b)) => {
                lemma_bind(c, var(e.from.node, name), b);
            },
            (TypeView::Var(a), TypeView::Var(b)) => {
                lemma_unite(c, var(e.from.node, a), var(e.to.node, b));
            },
        },
        _ => {},
    }
}

proof fn lemma_unified(g: GraphView, n: nat)
    requires
        n <= g.edges.len(),
    ensures
        unified(g, n).0.wf(),
        unified(g, n).1.len() == 0 ==> forall|i: int|
            0 <= i < n ==> agreed(g, unified(g, n).0, #[trigger] g.edges[i]),
    decreases n,
{
    if n > 0 {
        let m = (n - 1) as nat;
        lemma_unified(g, m);
        let c = unified(g, m).0;
        let d = unified(g, n).0;
        lemma_unify_edge(g, c, g.edges[n - 1]);
        if unified(g, n).1.len() == 0 {
            assert(unified(g, m).1.len() == 0);
            assert forall|i: int| 0 <= i < n implies agreed(g, d, #[trigger] g.edges[i]) by {
                if i < n - 1 {
                    let e = g.edges[i];
                    assert(agreed(g, c, e));
                    match (g.declared(e.from), g.declared(e.to)) {
                        (Some(from), Some(to)) => match (from, to) {
                            (TypeView::Concrete(a), TypeView::Concrete(b)) => {},
                            (TypeView::Concrete(a), TypeView::Var(name)) => {
                                assert(d.binding(var(e.to.node, name)) == Some(a));
                            },
                            (TypeView::Var(name), TypeView::Concrete(b)) => {
                                assert(d.binding(var(e.from.node, name)) == Some(b));
                            },
                            (TypeView::Var(a), TypeView::Var(b)) => {
                                assert(d.class(var(e.from.node, a)) == d.class(
                                    var(e.to.node, b),
                                ));
                            },
                        },
                        _ => {},
                    }
                }
            }
        }
    }
}

/// A chain that is consistent end to end cannot be built wrong: where inference reports
/// nothing, the two ends of every connection have one type.
pub proof fn connected_ports_agree(g: GraphView)
    requires
        type_errors(g).len() == 0,
    ensures
        forall|i: int|
            0 <= i < g.edges.len() && g.declared((#[trigger] g.edges[i]).from) is Some && g.declared(
                g.edges[i].to,
            ) is Some ==> port_types(g)[g.edges[i].from] == port_types(g)[g.edges[i].to],
{
    lemma_unified(g, g.edges.len());
    let c = unified(g, g.edges.len()).0;
    assert forall|i: int|
        0 <= i < g.edges.len() && g.declared((#[trigger] g.edges[i]).from) is Some && g.declared(
            g.edges[i].to,
        ) is Some implies port_types(g)[g.edges[i].from] == port_types(g)[g.edges[i].to] by {
        let e = g.edges[i];
        assert(agreed(g, c, e));
        assert(port_types(g).dom().contains(e.from));
        assert(port_types(g).dom().contains(e.to));
    }
}

} // verus!
