//! The editable graph: nodes, ports and the connections between them.
use crate::node::{
    default_label_of, ports, port_views, KindView, NodeKind, PortSpec, PortView, TypeView,
};
use crate::ordmap::{ascending, Key, OrdMap};
use crate::scalar::Scalar;
use crate::text::{comes_before, joined, quote, quoted, same, text_before, text_order, Text};
use crate::units::Quantity;
use vstd::prelude::*;

verus! {

/// Identifier for a node instance. Strings, because they round-trip to the editor and
/// survive being hand-edited in a saved profile.
#[derive(Debug, Clone, PartialEq, Eq, PartialOrd, Ord, Hash)]
pub struct NodeId(pub String);

impl View for NodeId {
    type V = Text;

    open spec fn view(&self) -> Text {
        self.0@
    }
}

impl NodeId {
    /// The id with this name.
    pub fn new(name: &str) -> (r: NodeId)
        ensures
            r@ == name@,
    {
        NodeId(name.to_owned())
    }

    /// The same id again.
    pub fn copy(&self) -> (r: NodeId)
        ensures
            r@ == self@,
    {
        NodeId(self.0.clone())
    }
}

impl Key for NodeId {
    type Name = Text;

    open spec fn name(&self) -> Text {
        self@
    }

    open spec fn before(a: Text, b: Text) -> bool {
        text_before(a, b)
    }

    proof fn order(a: Text, b: Text, c: Text) {
        text_order(a, b, c);
    }

    fn is(&self, other: &Self) -> (r: bool) {
        same(self.0.as_str(), other.0.as_str())
    }

    fn is_before(&self, other: &Self) -> (r: bool) {
        comes_before(self.0.as_str(), other.0.as_str())
    }

    fn duplicate(&self) -> (r: Self) {
        self.copy()
    }
}

/// Identifies one port on one node. Port keys are stable strings owned by the node kind.
#[derive(Debug, Clone, PartialEq, Eq, PartialOrd, Ord, Hash)]
pub struct PortRef {
    pub node: NodeId,
    pub port: String,
}

/// A port reference, as contracts speak of it.
pub struct PortKey {
    pub node: Text,
    pub port: Text,
}

impl View for PortRef {
    type V = PortKey;

    open spec fn view(&self) -> PortKey {
        PortKey { node: self.node@, port: self.port@ }
    }
}

impl PortRef {
    /// The port with this key on the node with this id.
    pub fn new(node: &str, port: &str) -> (r: PortRef)
        ensures
            r@ == (PortKey { node: node@, port: port@ }),
    {
        PortRef { node: NodeId::new(node), port: port.to_owned() }
    }

    /// The same reference again.
    pub fn copy(&self) -> (r: PortRef)
        ensures
            r@ == self@,
    {
        PortRef { node: self.node.copy(), port: self.port.clone() }
    }

    /// Whether two references name the same port.
    pub fn is_port(&self, other: &PortRef) -> (r: bool)
        ensures
            r == (self@ == other@),
    {
        same(self.node.0.as_str(), other.node.0.as_str()) && same(
            self.port.as_str(),
            other.port.as_str(),
        )
    }

    /// How a reference is written: `node.port`.
    pub fn written(&self) -> (r: String)
        ensures
            r@ == written(self@),
    {
        joined(joined(self.node.0.as_str(), ".").as_str(), self.port.as_str())
    }
}

/// How a reference is written: `node.port`.
pub open spec fn written(r: PortKey) -> Text {
    r.node + "."@ + r.port
}

impl Key for PortRef {
    type Name = PortKey;

    open spec fn name(&self) -> PortKey {
        self@
    }

    open spec fn before(a: PortKey, b: PortKey) -> bool {
        text_before(a.node, b.node) || (a.node == b.node && text_before(a.port, b.port))
    }

    proof fn order(a: PortKey, b: PortKey, c: PortKey) {
        text_order(a.node, b.node, c.node);
        text_order(a.port, b.port, c.port);
    }

    fn is(&self, other: &Self) -> (r: bool) {
        self.is_port(other)
    }

    fn is_before(&self, other: &Self) -> (r: bool) {
        comes_before(self.node.0.as_str(), other.node.0.as_str()) || (same(
            self.node.0.as_str(),
            other.node.0.as_str(),
        ) && comes_before(self.port.as_str(), other.port.as_str()))
    }

    fn duplicate(&self) -> (r: Self) {
        self.copy()
    }
}

/// A typed connection from one node's output to another node's input.
#[derive(Debug, Clone, PartialEq, Eq)]
pub struct Edge {
    pub from: PortRef,
    pub to: PortRef,
}

/// A connection, as contracts speak of it.
pub struct EdgeView {
    pub from: PortKey,
    pub to: PortKey,
}

impl View for Edge {
    type V = EdgeView;

    open spec fn view(&self) -> EdgeView {
        EdgeView { from: self.from@, to: self.to@ }
    }
}

impl Edge {
    /// The same connection again.
    pub fn copy(&self) -> (r: Edge)
        ensures
            r@ == self@,
    {
        Edge { from: self.from.copy(), to: self.to.copy() }
    }
}

/// A node instance: its kind (which carries the node's parameters) plus editor metadata.
#[derive(Debug, PartialEq)]
pub struct NodeInstance {
    pub kind: NodeKind,
    /// User-visible name. Falls back to the kind's default label when empty.
    pub label: String,
    /// Canvas position.
    pub position: (Scalar, Scalar),
}

/// A node instance, as contracts speak of it.
pub struct NodeView {
    pub kind: KindView,
    pub label: Text,
    pub position: (Scalar, Scalar),
}

impl View for NodeInstance {
    type V = NodeView;

    open spec fn view(&self) -> NodeView {
        NodeView { kind: self.kind@, label: self.label@, position: self.position }
    }
}

/// An instance nobody has named or placed yet.
pub open spec fn unplaced(kind: KindView) -> NodeView {
    NodeView {
        kind,
        label: Seq::empty(),
        position: (Scalar { bits: 0 }, Scalar { bits: 0 }),
    }
}

impl NodeInstance {
    /// An instance nobody has named or placed yet.
    pub fn new(kind: NodeKind) -> (r: NodeInstance)
        ensures
            r@ == unplaced(kind@),
    {
        NodeInstance {
            kind,
            label: String::new(),
            position: (Scalar { bits: 0 }, Scalar { bits: 0 }),
        }
    }

    /// The instance's label, or its kind's when it has none.
    pub fn display_name(&self) -> (r: &str)
        ensures
            r@ == if self.label@.len() == 0 {
                default_label_of(self.kind@)
            } else {
                self.label@
            },
    {
        if self.label.as_str().is_empty() {
            self.kind.default_label()
        } else {
            self.label.as_str()
        }
    }
}

impl Clone for NodeInstance {
    fn clone(&self) -> (r: NodeInstance)
        ensures
            r@ == self@,
    {
        NodeInstance {
            kind: self.kind.clone(),
            label: self.label.clone(),
            position: self.position,
        }
    }
}

/// An editable fan-control graph. May be invalid; [`Graph::validate`] finds out.
#[derive(Debug)]
pub struct Graph {
    pub nodes: OrdMap<NodeId, NodeInstance>,
    pub edges: Vec<Edge>,
}

/// A graph, as contracts speak of it: its node ids in order, its nodes and its edges.
#[verifier::ext_equal]
pub struct GraphView {
    pub ids: Seq<Text>,
    pub nodes: Map<Text, NodeView>,
    pub edges: Seq<EdgeView>,
}

/// What a list of edges says.
pub open spec fn edge_views(edges: Seq<Edge>) -> Seq<EdgeView> {
    Seq::new(edges.len(), |i: int| edges[i]@)
}

/// What a map of nodes says.
pub open spec fn node_views(nodes: Map<Text, NodeInstance>) -> Map<Text, NodeView> {
    nodes.map_values(|n: NodeInstance| n@)
}

impl View for Graph {
    type V = GraphView;

    open spec fn view(&self) -> GraphView {
        GraphView {
            ids: self.nodes.names(),
            nodes: node_views(self.nodes@),
            edges: edge_views(self.edges@),
        }
    }
}

/// The graph with nothing in it.
pub open spec fn empty_graph() -> GraphView {
    GraphView { ids: Seq::empty(), nodes: Map::empty(), edges: Seq::empty() }
}

impl GraphView {
    /// What every graph satisfies: its ids are those of its nodes, each once, in order.
    pub open spec fn wf(self) -> bool {
        &&& ascending::<NodeId>(self.ids)
        &&& self.ids.no_duplicates()
        &&& self.ids.len() <= usize::MAX
        &&& forall|id: Text| #[trigger] self.nodes.dom().contains(id) <==> self.ids.contains(id)
        &&& forall|i: int|
            0 <= i < self.ids.len() ==> self.nodes.dom().contains(#[trigger] self.ids[i])
    }
}

impl Graph {
    /// Every graph is well-formed.
    pub proof fn lemma_wf(&self)
        requires
            self.nodes.wf(),
        ensures
            self@.wf(),
    {
        self.nodes.lemma_wf();
    }

    /// The graph with nothing in it.
    pub fn new() -> (r: Graph)
        ensures
            r@ == empty_graph(),
    {
        let r = Graph { nodes: OrdMap::new(), edges: Vec::new() };
        assert(r@ =~= empty_graph());
        r
    }

    /// Puts a node under an id, replacing what was there.
    pub fn insert(&mut self, id: &str, kind: NodeKind) -> (r: NodeId)
        ensures
            r@ == id@,
            final(self)@.nodes == old(self)@.nodes.insert(id@, unplaced(kind@)),
            final(self)@.edges == old(self)@.edges,
            final(self)@.wf(),
    {
        let key = NodeId::new(id);
        self.nodes.insert(key.copy(), NodeInstance::new(kind));
        proof {
            assert(self@.nodes =~= old(self)@.nodes.insert(id@, unplaced(kind@)));
            use_type_invariant(&self.nodes);
            self.lemma_wf();
        }
        key
    }

    /// Adds a connection.
    pub fn connect(&mut self, from: PortRef, to: PortRef)
        ensures
            final(self)@ == (GraphView {
                edges: old(self)@.edges.push(EdgeView { from: from@, to: to@ }),
                ..old(self)@
            }),
    {
        let ghost before = self@;
        let edge = Edge { from, to };
        self.edges.push(edge);
        assert(self@.edges =~= before.edges.push(edge@));
    }

    /// The node with an id.
    pub fn node(&self, id: &NodeId) -> (r: Option<&NodeInstance>)
        ensures
            match r {
                Some(n) => self@.nodes.dom().contains(id@) && n@ == self@.nodes[id@],
                None => !self@.nodes.dom().contains(id@),
            },
    {
        self.nodes.get(id)
    }
}

impl Clone for Graph {
    fn clone(&self) -> (r: Graph)
        ensures
            r@ == self@,
    {
        let mut nodes: OrdMap<NodeId, NodeInstance> = OrdMap::new();
        let n: usize = self.nodes.len();
        proof {
            use_type_invariant(&self.nodes);
            self.nodes.lemma_wf();
        }
        for i in 0..n
            invariant
                n == self.nodes.names().len(),
                self.nodes.wf(),
                nodes.names() == self.nodes.names().take(i as int),
                forall|k: Text|
                    #[trigger] nodes@.dom().contains(k) ==> self.nodes@.dom().contains(k)
                        && nodes@[k]@ == self.nodes@[k]@,
        {
            let key = self.nodes.key_at(i).copy();
            let value = self.nodes.value_at(i).clone();
            proof {
                self.nodes.lemma_wf();
                assert forall|k: Text| #[trigger] nodes.names().contains(k) implies text_before(
                    k,
                    key@,
                ) by {
                    let j = nodes.names().index_of(k);
                    assert(self.nodes.names()[j] == k);
                    assert(NodeId::before(self.nodes.names()[j], self.nodes.names()[i as int]));
                }
            }
            nodes.push(key, value);
            assert(self.nodes.names().take(i as int).push(self.nodes.names()[i as int])
                =~= self.nodes.names().take(i + 1));
        }
        let mut edges: Vec<Edge> = Vec::new();
        let m: usize = self.edges.len();
        for i in 0..m
            invariant
                m == self.edges@.len(),
                edge_views(edges@) == edge_views(self.edges@).take(i as int),
                edges@.len() == i,
        {
            edges.push(self.edges[i].copy());
            assert(edge_views(edges@) =~= edge_views(self.edges@).take(i + 1));
        }
        let r = Graph { nodes, edges };
        proof {
            assert(self.nodes.names().take(n as int) =~= self.nodes.names());
            use_type_invariant(&r.nodes);
            r.nodes.lemma_wf();
            self.nodes.lemma_wf();
            assert(r@.nodes =~= self@.nodes);
            assert(edge_views(self.edges@).take(m as int) =~= edge_views(self.edges@));
            assert(r@ =~= self@);
        }
        r
    }
}

impl Default for Graph {
    fn default() -> (r: Graph)
        ensures
            r@ == empty_graph(),
    {
        Graph::new()
    }
}

// --- Looking up ports --------------------------------------------------------------------

/// The first port with a key.
pub open spec fn port_named(list: Seq<PortView>, key: Text) -> Option<PortView>
    decreases list.len(),
{
    if list.len() == 0 {
        None
    } else if list[0].key == key {
        Some(list[0])
    } else {
        port_named(list.drop_first(), key)
    }
}

/// The first port with a key.
pub fn find_port(list: &Vec<PortSpec>, key: &str) -> (r: Option<PortSpec>)
    ensures
        match r {
            Some(p) => port_named(port_views(list@), key@) == Some(p@),
            None => port_named(port_views(list@), key@) is None,
        },
{
    let n: usize = list.len();
    let ghost views = port_views(list@);
    assert(views.skip(0) =~= views);
    for i in 0..n
        invariant
            n == list@.len(),
            views == port_views(list@),
            port_named(views, key@) == port_named(views.skip(i as int), key@),
    {
        if same(list[i].key, key) {
            return Some(list[i]);
        }
        assert(views.skip(i as int).drop_first() =~= views.skip(i + 1));
    }
    None
}

/// A port found by key is one of the ports, and has that key.
pub proof fn lemma_port_named(list: Seq<PortView>, key: Text)
    ensures
        match port_named(list, key) {
            Some(p) => p.key == key && list.contains(p),
            None => forall|i: int| 0 <= i < list.len() ==> (#[trigger] list[i]).key != key,
        },
    decreases list.len(),
{
    if list.len() > 0 && list[0].key != key {
        lemma_port_named(list.drop_first(), key);
        match port_named(list.drop_first(), key) {
            Some(p) => {
                let k = choose|k: int|
                    0 <= k < list.drop_first().len() && list.drop_first()[k] == p;
                assert(list[k + 1] == p);
            },
            None => {
                assert forall|i: int| 0 <= i < list.len() implies (#[trigger] list[i]).key != key by {
                    if i > 0 {
                        assert(list.drop_first()[i - 1] == list[i]);
                    }
                }
            },
        }
    } else if list.len() > 0 {
        assert(list.contains(list[0]));
    }
}

/// Searching two lists in turn is searching them end to end.
pub proof fn lemma_port_named_append(a: Seq<PortView>, b: Seq<PortView>, key: Text)
    ensures
        port_named(a + b, key) == match port_named(a, key) {
            Some(p) => Some(p),
            None => port_named(b, key),
        },
    decreases a.len(),
{
    if a.len() == 0 {
        assert(a + b =~= b);
    } else {
        assert((a + b)[0] == a[0]);
        if a[0].key != key {
            assert((a + b).drop_first() =~= a.drop_first() + b);
            lemma_port_named_append(a.drop_first(), b, key);
        }
    }
}

impl GraphView {
    /// The input a reference names.
    pub open spec fn input(self, r: PortKey) -> Option<PortView> {
        if self.nodes.dom().contains(r.node) {
            port_named(ports(self.nodes[r.node].kind).inputs, r.port)
        } else {
            None
        }
    }

    /// The output a reference names, where the node has no input of that key.
    pub open spec fn output(self, r: PortKey) -> Option<PortView> {
        if self.nodes.dom().contains(r.node) && self.input(r) is None {
            port_named(ports(self.nodes[r.node].kind).outputs, r.port)
        } else {
            None
        }
    }

    /// The declared type of a port, if the port exists.
    pub open spec fn declared(self, r: PortKey) -> Option<TypeView> {
        if self.nodes.dom().contains(r.node) {
            match port_named(ports(self.nodes[r.node].kind).all(), r.port) {
                Some(p) => Some(p.ty),
                None => None,
            }
        } else {
            None
        }
    }

    /// Whether a port is an output whose value predates the current tick.
    pub open spec fn delayed(self, r: PortKey) -> bool {
        self.nodes.dom().contains(r.node) && match port_named(
            ports(self.nodes[r.node].kind).outputs,
            r.port,
        ) {
            Some(p) => p.delayed,
            None => false,
        }
    }

    /// Whether an edge ends at a port.
    pub open spec fn connected(self, r: PortKey) -> bool {
        exists|i: int| 0 <= i < self.edges.len() && (#[trigger] self.edges[i]).to == r
    }
}

/// Which way a port faces.
#[derive(Debug, Clone, Copy, PartialEq, Eq, Structural)]
pub enum Direction {
    In,
    Out,
}

impl Graph {
    /// Looks up a port and which way it faces, if it exists.
    pub fn port_spec(&self, r: &PortRef) -> (found: Option<(PortSpec, Direction)>)
        ensures
            match found {
                Some((p, Direction::In)) => self@.input(r@) == Some(p@),
                Some((p, Direction::Out)) => self@.output(r@) == Some(p@) && self@.input(r@) is None,
                None => self@.input(r@) is None && self@.output(r@) is None,
            },
    {
        let node = match self.nodes.get(&r.node) {
            Some(n) => n,
            None => return None,
        };
        let spec = node.kind.spec();
        if let Some(p) = find_port(&spec.inputs, r.port.as_str()) {
            return Some((p, Direction::In));
        }
        if let Some(p) = find_port(&spec.outputs, r.port.as_str()) {
            return Some((p, Direction::Out));
        }
        None
    }

    /// Whether this port is an output whose value predates the current tick.
    pub fn is_delayed_source(&self, r: &PortRef) -> (b: bool)
        ensures
            b == self@.delayed(r@),
    {
        match self.nodes.get(&r.node) {
            Some(n) => match find_port(&n.kind.spec().outputs, r.port.as_str()) {
                Some(p) => p.delayed,
                None => false,
            },
            None => false,
        }
    }

    /// Whether an edge ends at a port.
    pub fn is_connected(&self, r: &PortRef) -> (b: bool)
        ensures
            b == self@.connected(r@),
    {
        let n: usize = self.edges.len();
        for i in 0..n
            invariant
                n == self.edges@.len(),
                forall|k: int| 0 <= k < i ==> (#[trigger] self.edges@[k])@.to != r@,
        {
            if self.edges[i].to.is_port(r) {
                assert(self@.edges[i as int].to == r@);
                return true;
            }
        }
        assert forall|k: int| 0 <= k < self@.edges.len() implies (#[trigger] self@.edges[k]).to
            != r@ by {
            assert(self.edges@[k]@.to != r@);
        }
        false
    }
}

// --- What a graph drives and reads ---------------------------------------------------------

/// The channels driven by the first `n` nodes.
pub open spec fn channels_of(g: GraphView, n: nat) -> Set<Text>
    decreases n,
{
    if n == 0 {
        Set::empty()
    } else {
        let before = channels_of(g, (n - 1) as nat);
        match g.nodes[g.ids[n - 1]].kind {
            KindView::FanOutput { channel } => before.insert(channel),
            _ => before,
        }
    }
}

/// The sensors read by the first `n` nodes, with the quantity each is declared as.
pub open spec fn sensors_of(g: GraphView, n: nat) -> Map<Text, Quantity>
    decreases n,
{
    if n == 0 {
        Map::empty()
    } else {
        let before = sensors_of(g, (n - 1) as nat);
        match g.nodes[g.ids[n - 1]].kind {
            KindView::Sensor { sensor_id, quantity } => before.insert(sensor_id, quantity),
            _ => before,
        }
    }
}

impl GraphView {
    /// Whether some node drives a channel.
    pub open spec fn drives(self, channel: Text) -> bool {
        exists|id: Text| #[trigger] self.nodes.dom().contains(id) && self.nodes[id].kind
            == (KindView::FanOutput { channel })
    }
}

proof fn lemma_channels_of(g: GraphView, n: nat, channel: Text)
    requires
        n <= g.ids.len(),
    ensures
        channels_of(g, n).contains(channel) <==> exists|i: int|
            0 <= i < n && g.nodes[#[trigger] g.ids[i]].kind == (KindView::FanOutput { channel }),
    decreases n,
{
    if n > 0 {
        lemma_channels_of(g, (n - 1) as nat, channel);
        if channels_of(g, n).contains(channel) {
            if !channels_of(g, (n - 1) as nat).contains(channel) {
                assert(g.nodes[g.ids[n - 1]].kind == (KindView::FanOutput { channel }));
            } else {
                let i = choose|i: int|
                    0 <= i < n - 1 && g.nodes[#[trigger] g.ids[i]].kind == (KindView::FanOutput {
                        channel,
                    });
                assert(0 <= i < n);
            }
        }
    }
}

/// A set of names, held as a map to nothing.
pub type NameSet = OrdMap<String, ()>;

impl Graph {
    /// Every hardware channel this graph drives.
    ///
    /// Exactly this set is acquired, so a channel can never end up held without a node
    /// responsible for it, or driven by a node whose channel was never acquired.
    pub fn output_channels(&self) -> (r: NameSet)
        ensures
            forall|c: Text| #[trigger] r@.dom().contains(c) <==> self@.drives(c),
    {
        proof {
            use_type_invariant(&self.nodes);
            self.lemma_wf();
        }
        let mut out: NameSet = OrdMap::new();
        let n: usize = self.nodes.len();
        for i in 0..n
            invariant
                n == self@.ids.len(),
                self@.wf(),
                out@.dom() =~= channels_of(self@, i as nat),
        {
            let node = self.nodes.value_at(i);
            if let NodeKind::FanOutput { channel } = &node.kind {
                out.insert(channel.clone(), ());
            }
        }
        proof {
            let g = self@;
            assert forall|c: Text| #[trigger] out@.dom().contains(c) <==> g.drives(c) by {
                lemma_channels_of(g, n as nat, c);
                if g.drives(c) {
                    let id = choose|id: Text| #[trigger] g.nodes.dom().contains(id)
                        && g.nodes[id].kind == (KindView::FanOutput { channel: c });
                    let i = g.ids.index_of(id);
                    assert(g.ids[i] == id);
                }
                if channels_of(g, n as nat).contains(c) {
                    let i = choose|i: int|
                        0 <= i < n && g.nodes[#[trigger] g.ids[i]].kind == (KindView::FanOutput {
                            channel: c,
                        });
                    assert(g.nodes.dom().contains(g.ids[i]));
                }
            }
        }
        out
    }

    /// Every sensor this graph reads, with the quantity each is declared as. Where two
    /// nodes read one sensor, the later one's declaration stands.
    pub fn required_sensors(&self) -> (r: OrdMap<String, Quantity>)
        ensures
            r@ == sensors_of(self@, self@.ids.len()),
    {
        let mut out: OrdMap<String, Quantity> = OrdMap::new();
        let n: usize = self.nodes.len();
        for i in 0..n
            invariant
                n == self@.ids.len(),
                out@ == sensors_of(self@, i as nat),
        {
            let node = self.nodes.value_at(i);
            if let NodeKind::Sensor { sensor_id, quantity } = &node.kind {
                out.insert(sensor_id.clone(), *quantity);
            }
        }
        out
    }
}

// --- Errors --------------------------------------------------------------------------------

/// Everything that can be wrong with a graph.
///
/// These are reported as a batch rather than stopping at the first one, so the editor can
/// mark every bad node at once.
#[derive(Debug, Clone, PartialEq)]
pub enum GraphError {
    /// An edge references an unknown node.
    UnknownNode(NodeId),
    /// A node has no port of that name.
    UnknownPort(NodeId, String),
    /// An edge starts at an input.
    NotAnOutput { edge_from: PortRef },
    /// An edge ends at an output.
    NotAnInput { edge_to: PortRef },
    /// An output cannot drive that input: a conversion node is missing.
    TypeMismatch { from: PortRef, to: PortRef, source_ty: Quantity, sink_ty: Quantity },
    /// An input has more than one incoming connection.
    InputOverSubscribed(PortRef),
    /// A required input is not connected.
    MissingInput(PortRef),
    /// A node's connections disagree about the type flowing through it.
    TypeConflict { node: NodeId, a: Quantity, b: Quantity },
    /// The graph contains a cycle through this node.
    Cycle(NodeId),
}

/// An error, as contracts speak of it.
pub enum ErrorView {
    UnknownNode(Text),
    UnknownPort(Text, Text),
    NotAnOutput(PortKey),
    NotAnInput(PortKey),
    TypeMismatch { from: PortKey, to: PortKey, source_ty: Quantity, sink_ty: Quantity },
    InputOverSubscribed(PortKey),
    MissingInput(PortKey),
    TypeConflict { node: Text, a: Quantity, b: Quantity },
    Cycle(Text),
}

impl View for GraphError {
    type V = ErrorView;

    open spec fn view(&self) -> ErrorView {
        match *self {
            GraphError::UnknownNode(n) => ErrorView::UnknownNode(n@),
            GraphError::UnknownPort(n, p) => ErrorView::UnknownPort(n@, p@),
            GraphError::NotAnOutput { edge_from } => ErrorView::NotAnOutput(edge_from@),
            GraphError::NotAnInput { edge_to } => ErrorView::NotAnInput(edge_to@),
            GraphError::TypeMismatch { from, to, source_ty, sink_ty } => ErrorView::TypeMismatch {
                from: from@,
                to: to@,
                source_ty,
                sink_ty,
            },
            GraphError::InputOverSubscribed(r) => ErrorView::InputOverSubscribed(r@),
            GraphError::MissingInput(r) => ErrorView::MissingInput(r@),
            GraphError::TypeConflict { node, a, b } => ErrorView::TypeConflict { node: node@, a, b },
            GraphError::Cycle(n) => ErrorView::Cycle(n@),
        }
    }
}

/// What a list of errors says.
pub open spec fn error_views(errors: Seq<GraphError>) -> Seq<ErrorView> {
    Seq::new(errors.len(), |i: int| errors[i]@)
}

/// Adds an error to a list.
pub fn report(errors: &mut Vec<GraphError>, e: GraphError)
    ensures
        error_views(final(errors)@) == error_views(old(errors)@).push(e@),
{
    let ghost before = error_views(errors@);
    errors.push(e);
    assert(error_views(errors@) =~= before.push(e@));
}

/// What an error says to a person.
pub open spec fn error_message(e: ErrorView) -> Text {
    match e {
        ErrorView::UnknownNode(node) => "edge references unknown node "@ + node,
        ErrorView::UnknownPort(node, port) => "node "@ + node + " has no port named "@ + quoted(
            port,
        ),
        ErrorView::NotAnOutput(edge_from) => written(edge_from) + " is an input, not an output"@,
        ErrorView::NotAnInput(edge_to) => written(edge_to) + " is an output, not an input"@,
        ErrorView::TypeMismatch { from, to, source_ty, sink_ty } => written(from) + " ("@
            + source_ty.named() + ") cannot drive "@ + written(to) + " ("@ + sink_ty.named()
            + "): insert a conversion node"@,
        ErrorView::InputOverSubscribed(input) => "input "@ + written(input)
            + " has more than one incoming connection"@,
        ErrorView::MissingInput(input) => "required input "@ + written(input)
            + " is not connected"@,
        ErrorView::TypeConflict { node, a, b } => "node "@ + node + " would have to carry both "@
            + a.named() + " and "@ + b.named()
            + ": its connections disagree about          the type flowing through it"@,
        ErrorView::Cycle(node) => "the graph contains a cycle through node "@ + node
            + "; use a delay or filter node instead"@,
    }
}

fn around(before: &str, middle: &str, after: &str) -> (r: String)
    ensures
        r@ == before@ + middle@ + after@,
{
    joined(joined(before, middle).as_str(), after)
}

impl GraphError {
    /// What this says to a person.
    pub fn message(&self) -> (r: String)
        ensures
            r@ == error_message(self@),
    {
        match self {
            GraphError::UnknownNode(node) => joined(
                "edge references unknown node ",
                node.0.as_str(),
            ),
            GraphError::UnknownPort(node, port) => joined(
                around("node ", node.0.as_str(), " has no port named ").as_str(),
                quote(port.as_str()).as_str(),
            ),
            GraphError::NotAnOutput { edge_from } => joined(
                edge_from.written().as_str(),
                " is an input, not an output",
            ),
            GraphError::NotAnInput { edge_to } => joined(
                edge_to.written().as_str(),
                " is an output, not an input",
            ),
            GraphError::TypeMismatch { from, to, source_ty, sink_ty } => {
                let start = around(from.written().as_str(), " (", source_ty.name());
                let middle = around(start.as_str(), ") cannot drive ", to.written().as_str());
                joined(
                    around(middle.as_str(), " (", sink_ty.name()).as_str(),
                    "): insert a conversion node",
                )
            },
            GraphError::InputOverSubscribed(input) => around(
                "input ",
                input.written().as_str(),
                " has more than one incoming connection",
            ),
            GraphError::MissingInput(input) => around(
                "required input ",
                input.written().as_str(),
                " is not connected",
            ),
            GraphError::TypeConflict { node, a, b } => {
                let start = around("node ", node.0.as_str(), " would have to carry both ");
                let middle = around(start.as_str(), a.name(), " and ");
                around(
                    middle.as_str(),
                    b.name(),
                    ": its connections disagree about          the type flowing through it",
                )
            },
            GraphError::Cycle(node) => around(
                "the graph contains a cycle through node ",
                node.0.as_str(),
                "; use a delay or filter node instead",
            ),
        }
    }
}

} // verus!
