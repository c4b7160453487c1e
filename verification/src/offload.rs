//! Can this channel run in the chip, and if not, exactly why?
//!
//! A Super I/O can run a fan curve by itself: one temperature, a few points, no software
//! involved. This module decides whether a channel's configuration fits, and when it does
//! not, says which node stopped it.
//!
//! It answers only the question the *graph* can answer: does this channel reduce to a
//! constant duty, or to a curve on a single sensor? Whether a particular chip can read that
//! sensor is a hardware question. So a [`Reduction`] is a candidate, not a promise.
//!
//! Some nodes disappear into the curve rather than blocking it: a `Clamp` after a curve
//! clamps its points; `Offset` and `Scale` shift and stretch them.
use crate::eval::{bound, bounded, interpolated, left_to_right, placed, standing};
use crate::graph::{EdgeView, Graph, GraphView, NodeId, PortKey, PortRef};
use crate::node::{copy_points, default_label_of, CurvePoint, KindView, NodeKind};
use crate::ordmap::OrdMap;
use crate::scalar::Scalar;
use crate::text::{joined, same, Text};
use crate::units::Quantity;
use vstd::prelude::*;

verus! {

/// What a channel's configuration reduces to, when it reduces at all.
#[derive(Debug, PartialEq)]
pub enum Reduction {
    /// A single duty, held forever.
    Fixed { duty: Scalar },
    /// A piecewise transfer from one sensor to a duty.
    Curve {
        sensor_id: String,
        /// What the sensor reads. A chip curve needs a temperature; anything else is a
        /// hardware question, which is why it is reported rather than judged here.
        quantity: Quantity,
        points: Vec<CurvePoint>,
    },
}

/// A reduction, as contracts speak of it.
pub enum ReductionView {
    Fixed { duty: Scalar },
    Curve { sensor_id: Text, quantity: Quantity, points: Seq<CurvePoint> },
}

impl View for Reduction {
    type V = ReductionView;

    open spec fn view(&self) -> ReductionView {
        match *self {
            Reduction::Fixed { duty } => ReductionView::Fixed { duty },
            Reduction::Curve { sensor_id, quantity, points } => ReductionView::Curve {
                sensor_id: sensor_id@,
                quantity,
                points: points@,
            },
        }
    }
}

/// Why a channel cannot be reduced to something a chip could run.
#[derive(Debug, PartialEq)]
pub struct Obstacle {
    /// The node responsible, so an interface can point at it.
    pub node: Option<NodeId>,
    pub kind: ObstacleKind,
}

/// What stands in the way.
#[derive(Debug, Clone, Copy, PartialEq)]
pub enum ObstacleKind {
    /// No output node names this channel.
    NotDriven,
    /// Two outputs name it, so there is no single answer.
    DrivenTwice,
    /// An output exists but nothing is connected to it.
    NothingConnected,
    /// A node with no chip equivalent.
    ///
    /// `chip_alternative` names a chip setting that is *similar but not the same*, when one
    /// exists: it turns "you cannot" into "you could, by giving this up".
    Unsupported { node_kind: &'static str, chip_alternative: Option<&'static str> },
    /// More than one thing feeds a combining node, and a chip curve follows one input.
    CombinesInputs { node_kind: &'static str },
    /// A curve's input is not a plain sensor reading.
    CurveInputIsNotASensor { found: &'static str },
}

/// What stands in the way, as contracts speak of it.
pub enum WhyView {
    NotDriven,
    DrivenTwice,
    NothingConnected,
    Unsupported { node_kind: Text, chip_alternative: Option<Text> },
    CombinesInputs { node_kind: Text },
    CurveInputIsNotASensor { found: Text },
}

/// An obstacle, as contracts speak of it.
pub struct ObstacleView {
    pub node: Option<Text>,
    pub kind: WhyView,
}

impl View for ObstacleKind {
    type V = WhyView;

    open spec fn view(&self) -> WhyView {
        match *self {
            ObstacleKind::NotDriven => WhyView::NotDriven,
            ObstacleKind::DrivenTwice => WhyView::DrivenTwice,
            ObstacleKind::NothingConnected => WhyView::NothingConnected,
            ObstacleKind::Unsupported { node_kind, chip_alternative } => WhyView::Unsupported {
                node_kind: node_kind@,
                chip_alternative: match chip_alternative {
                    Some(s) => Some(s@),
                    None => None,
                },
            },
            ObstacleKind::CombinesInputs { node_kind } => WhyView::CombinesInputs {
                node_kind: node_kind@,
            },
            ObstacleKind::CurveInputIsNotASensor { found } => WhyView::CurveInputIsNotASensor {
                found: found@,
            },
        }
    }
}

impl View for Obstacle {
    type V = ObstacleView;

    open spec fn view(&self) -> ObstacleView {
        ObstacleView {
            node: match self.node {
                Some(id) => Some(id@),
                None => None,
            },
            kind: self.kind@,
        }
    }
}

/// What a list of obstacles says.
pub open spec fn obstacle_views(list: Seq<Obstacle>) -> Seq<ObstacleView> {
    Seq::new(list.len(), |i: int| list[i]@)
}

/// A sentence for somebody who did not write this graph.
pub open spec fn explanation(kind: WhyView) -> Text {
    match kind {
        WhyView::NotDriven => "Nothing in this configuration drives this fan."@,
        WhyView::DrivenTwice =>
            "Two outputs drive this fan, so there is no single curve to hand over."@,
        WhyView::NothingConnected => "This fan's output has nothing connected to it yet."@,
        WhyView::Unsupported { node_kind, chip_alternative: Some(alternative) } => "The \""@
            + node_kind
            + "\" step has no equivalent in the motherboard chip. The chip has its own "@
            + alternative
            + ", which is similar but not the same — removing this step would let this fan run in the chip."@,
        WhyView::Unsupported { node_kind, chip_alternative: None } => "The \""@ + node_kind
            + "\" step can only run in software; the motherboard chip has nothing like it."@,
        WhyView::CombinesInputs { node_kind } => "The \""@ + node_kind
            + "\" step combines several inputs. The motherboard chip follows one temperature per fan, so this has to stay in software."@,
        WhyView::CurveInputIsNotASensor { found } => "This curve follows a \""@ + found
            + "\" step rather than a sensor directly. The motherboard chip can only follow a sensor it reads itself."@,
    }
}

fn sentence(before: &str, middle: &str, after: &str) -> (r: String)
    ensures
        r@ == before@ + middle@ + after@,
{
    joined(joined(before, middle).as_str(), after)
}

impl Obstacle {
    /// A sentence for somebody who did not write this graph.
    pub fn explain(&self) -> (r: String)
        ensures
            r@ == explanation(self.kind@),
    {
        match self.kind {
            ObstacleKind::NotDriven => "Nothing in this configuration drives this fan.".to_owned(),
            ObstacleKind::DrivenTwice =>
                "Two outputs drive this fan, so there is no single curve to hand over.".to_owned(),
            ObstacleKind::NothingConnected =>
                "This fan's output has nothing connected to it yet.".to_owned(),
            ObstacleKind::Unsupported { node_kind, chip_alternative } => match chip_alternative {
                Some(alternative) => sentence(
                    sentence(
                        "The \"",
                        node_kind,
                        "\" step has no equivalent in the motherboard chip. The chip has its own ",
                    ).as_str(),
                    alternative,
                    ", which is similar but not the same — removing this step would let this fan run in the chip.",
                ),
                None => sentence(
                    "The \"",
                    node_kind,
                    "\" step can only run in software; the motherboard chip has nothing like it.",
                ),
            },
            ObstacleKind::CombinesInputs { node_kind } => sentence(
                "The \"",
                node_kind,
                "\" step combines several inputs. The motherboard chip follows one temperature per fan, so this has to stay in software.",
            ),
            ObstacleKind::CurveInputIsNotASensor { found } => sentence(
                "This curve follows a \"",
                found,
                "\" step rather than a sensor directly. The motherboard chip can only follow a sensor it reads itself.",
            ),
        }
    }
}

// --- What a channel reduces to -----------------------------------------------------------------

/// A chip setting that resembles a node, only where the resemblance is real.
pub open spec fn resembling(kind: KindView) -> Option<Text> {
    match kind {
        KindView::Hold { .. } => Some("hysteresis setting"@),
        KindView::LowPass { .. }
        | KindView::RateLimit { .. }
        | KindView::MovingAverage { .. } => Some("step-up and step-down timing"@),
        _ => None,
    }
}

/// The output port feeding an input port, over the edges from `i` on: the first one counts.
pub open spec fn feeding(edges: Seq<EdgeView>, input: PortKey, i: int) -> Option<PortKey>
    decreases edges.len() - i,
{
    if i >= edges.len() {
        None
    } else if edges[i].to == input {
        Some(edges[i].from)
    } else {
        feeding(edges, input, i + 1)
    }
}

/// What feeds a node's port.
pub open spec fn producer(g: GraphView, node: Text, port: Text) -> Option<PortKey> {
    feeding(g.edges, PortKey { node, port }, 0)
}

/// What feeds a node's port, where that is a node of the graph.
pub open spec fn source_of(g: GraphView, node: Text, port: Text) -> Option<Text> {
    match producer(g, node, port) {
        Some(source) if g.nodes.dom().contains(source.node) => Some(source.node),
        _ => None,
    }
}

/// A node that cannot be handed over, as an obstacle.
pub open spec fn blocked_by(node: Text, kind: WhyView) -> Seq<ObstacleView> {
    seq![ObstacleView { node: Some(node), kind }]
}

/// The sensor a curve follows, which must be a sensor and nothing else; or what it follows
/// instead.
pub open spec fn followed(g: GraphView, curve: Text) -> (Option<(Text, Quantity)>, Seq<ObstacleView>) {
    match source_of(g, curve, "in"@) {
        Some(source) => {
            let kind = g.nodes[source].kind;
            match kind {
                KindView::Sensor { sensor_id, quantity } => (
                    Some((sensor_id, quantity)),
                    Seq::empty(),
                ),
                KindView::Mix { .. } => (
                    None,
                    blocked_by(
                        source,
                        WhyView::CombinesInputs { node_kind: default_label_of(kind) },
                    ),
                ),
                _ => (
                    None,
                    blocked_by(
                        source,
                        if resembling(kind) is Some {
                            WhyView::Unsupported {
                                node_kind: default_label_of(kind),
                                chip_alternative: resembling(kind),
                            }
                        } else {
                            WhyView::CurveInputIsNotASensor { found: default_label_of(kind) }
                        },
                    ),
                ),
            }
        },
        None => (None, blocked_by(curve, WhyView::NothingConnected)),
    }
}

/// A transform applied to whatever a reduction produces.
pub open spec fn mapped(r: ReductionView, f: spec_fn(Scalar) -> Scalar) -> ReductionView {
    match r {
        ReductionView::Fixed { duty } => ReductionView::Fixed { duty: f(duty) },
        ReductionView::Curve { sensor_id, quantity, points } => ReductionView::Curve {
            sensor_id,
            quantity,
            points: mapped_points(points, f),
        },
    }
}

/// A transform applied to the heights of a curve's points.
pub open spec fn mapped_points(points: Seq<CurvePoint>, f: spec_fn(Scalar) -> Scalar) -> Seq<
    CurvePoint,
> {
    Seq::new(points.len(), |i: int| CurvePoint { x: points[i].x, y: f(points[i].y) })
}

/// What folding a node does to a duty.
pub open spec fn folded_duty(kind: KindView, duty: Scalar) -> Scalar {
    match kind {
        KindView::Clamp { min, max } => bounded(duty, min, max),
        KindView::Offset { delta } => duty.plus(delta),
        KindView::Scale { factor } => duty.times(factor),
        _ => duty,
    }
}

/// The walk back along the duty path, at most `fuel` nodes of it: what folds is folded,
/// what does not is recorded. A walk that is longer than the graph goes round in a loop, into
/// which nothing is connected.
pub open spec fn folded(g: GraphView, node: Text, fuel: nat) -> (
    Option<ReductionView>,
    Seq<ObstacleView>,
)
    decreases fuel,
{
    if fuel == 0 || !g.nodes.dom().contains(node) {
        (None, blocked_by(node, WhyView::NothingConnected))
    } else {
        let kind = g.nodes[node].kind;
        match kind {
            KindView::Constant { value } => (
                Some(ReductionView::Fixed { duty: value }),
                Seq::empty(),
            ),
            KindView::Curve { points } => {
                let (sensor, obstacles) = followed(g, node);
                (
                    match sensor {
                        Some((sensor_id, quantity)) => Some(
                            ReductionView::Curve { sensor_id, quantity, points },
                        ),
                        None => None,
                    },
                    obstacles,
                )
            },
            KindView::Clamp { .. } | KindView::Offset { .. } | KindView::Scale { .. } => {
                match source_of(g, node, "in"@) {
                    Some(source) => {
                        let (inner, obstacles) = folded(g, source, (fuel - 1) as nat);
                        (
                            match inner {
                                Some(r) => Some(mapped(r, |d: Scalar| folded_duty(kind, d))),
                                None => None,
                            },
                            obstacles,
                        )
                    },
                    None => (None, blocked_by(node, WhyView::NothingConnected)),
                }
            },
            KindView::Mix { .. } => (
                None,
                blocked_by(node, WhyView::CombinesInputs { node_kind: default_label_of(kind) }),
            ),
            _ => (
                None,
                blocked_by(
                    node,
                    WhyView::Unsupported {
                        node_kind: default_label_of(kind),
                        chip_alternative: resembling(kind),
                    },
                ),
            ),
        }
    }
}

/// The outputs that name a channel, among the first `n` nodes.
pub open spec fn outputs_naming(g: GraphView, channel: Text, n: nat) -> Seq<Text>
    decreases n,
{
    if n == 0 {
        Seq::empty()
    } else {
        let before = outputs_naming(g, channel, (n - 1) as nat);
        if g.nodes[g.ids[n - 1]].kind == (KindView::FanOutput { channel }) {
            before.push(g.ids[n - 1])
        } else {
            before
        }
    }
}

/// What a channel's configuration reduces to, or everything that stopped it.
pub open spec fn reduced(g: GraphView, channel: Text) -> Result<ReductionView, Seq<ObstacleView>> {
    let outputs = outputs_naming(g, channel, g.ids.len());
    if outputs.len() == 0 {
        Err(seq![ObstacleView { node: None, kind: WhyView::NotDriven }])
    } else if outputs.len() > 1 {
        Err(seq![ObstacleView { node: None, kind: WhyView::DrivenTwice }])
    } else {
        match source_of(g, outputs[0], "duty"@) {
            None => Err(blocked_by(outputs[0], WhyView::NothingConnected)),
            Some(source) => {
                let (reduction, obstacles) = folded(g, source, g.ids.len());
                match reduction {
                    Some(r) if obstacles.len() == 0 => Ok(r),
                    // A partial reduction with obstacles is still a failure: it would
                    // describe a fan that behaves differently from the one configured.
                    _ => Err(obstacles),
                }
            },
        }
    }
}

/// What a result of reducing says.
pub open spec fn verdict_view(r: Result<Reduction, Vec<Obstacle>>) -> Result<
    ReductionView,
    Seq<ObstacleView>,
> {
    match r {
        Ok(x) => Ok(x@),
        Err(list) => Err(obstacle_views(list@)),
    }
}

// --- Reducing ------------------------------------------------------------------------------------

fn chip_alternative(kind: &NodeKind) -> (r: Option<&'static str>)
    ensures
        match r {
            Some(s) => resembling(kind@) == Some(s@),
            None => resembling(kind@) is None,
        },
{
    match kind {
        NodeKind::Hold { .. } => Some("hysteresis setting"),
        NodeKind::LowPass { .. }
        | NodeKind::RateLimit { .. }
        | NodeKind::MovingAverage { .. } => Some("step-up and step-down timing"),
        _ => None,
    }
}

/// The output port feeding an input port, if anything does.
fn producer_of(graph: &Graph, input: &PortRef) -> (r: Option<PortRef>)
    ensures
        match r {
            Some(p) => producer(graph@, input@.node, input@.port) == Some(p@),
            None => producer(graph@, input@.node, input@.port) is None,
        },
{
    let n: usize = graph.edges.len();
    for i in 0..n
        invariant
            n == graph.edges@.len(),
            n == graph@.edges.len(),
            producer(graph@, input@.node, input@.port) == feeding(graph@.edges, input@, i as int),
    {
        assert(graph@.edges[i as int] == graph.edges@[i as int]@);
        if graph.edges[i].to.is_port(input) {
            return Some(graph.edges[i].from.copy());
        }
    }
    None
}

/// The node feeding a port of another, if there is one.
fn node_feeding(graph: &Graph, node: &NodeId, port: &str) -> (r: Option<NodeId>)
    ensures
        match r {
            Some(id) => source_of(graph@, node@, port@) == Some(id@),
            None => source_of(graph@, node@, port@) is None,
        },
{
    match producer_of(graph, &PortRef::new(node.0.as_str(), port)) {
        Some(source) => if graph.nodes.contains_key(&source.node) {
            Some(source.node)
        } else {
            None
        },
        None => None,
    }
}

fn obstruct(obstacles: &mut Vec<Obstacle>, node: &NodeId, kind: ObstacleKind)
    ensures
        obstacle_views(final(obstacles)@) == obstacle_views(old(obstacles)@) + blocked_by(
            node@,
            kind@,
        ),
{
    let ghost before = obstacle_views(obstacles@);
    obstacles.push(Obstacle { node: Some(node.copy()), kind });
    assert(obstacle_views(obstacles@) =~= before + blocked_by(node@, kind@));
}

/// The sensor a curve follows, which must be a sensor and nothing else.
fn curve_sensor(graph: &Graph, curve: &NodeId, obstacles: &mut Vec<Obstacle>) -> (r: Option<
    (String, Quantity),
>)
    ensures
        match r {
            Some((id, q)) => followed(graph@, curve@).0 == Some((id@, q)),
            None => followed(graph@, curve@).0 is None,
        },
        obstacle_views(final(obstacles)@) == obstacle_views(old(obstacles)@) + followed(
            graph@,
            curve@,
        ).1,
{
    assert(obstacle_views(obstacles@) + Seq::<ObstacleView>::empty() =~= obstacle_views(obstacles@));
    let source = match node_feeding(graph, curve, "in") {
        Some(s) => s,
        None => {
            obstruct(obstacles, curve, ObstacleKind::NothingConnected);
            return None;
        },
    };
    let node = match graph.node(&source) {
        Some(n) => n,
        None => return None,
    };
    let label = node.kind.default_label();
    match &node.kind {
        NodeKind::Sensor { sensor_id, quantity } => Some((sensor_id.clone(), *quantity)),
        NodeKind::Mix { .. } => {
            obstruct(obstacles, &source, ObstacleKind::CombinesInputs { node_kind: label });
            None
        },
        other => {
            // A filter on the *temperature* side still blocks the handover, but it is one the
            // chip has a rough equivalent for.
            let alternative = chip_alternative(other);
            if alternative.is_some() {
                obstruct(
                    obstacles,
                    &source,
                    ObstacleKind::Unsupported { node_kind: label, chip_alternative: alternative },
                );
            } else {
                obstruct(
                    obstacles,
                    &source,
                    ObstacleKind::CurveInputIsNotASensor { found: label },
                );
            }
            None
        },
    }
}

fn fold_one(kind: &NodeKind, duty: Scalar) -> (r: Scalar)
    ensures
        r == folded_duty(kind@, duty),
{
    match kind {
        NodeKind::Clamp { min, max } => bound(duty, *min, *max),
        NodeKind::Offset { delta } => duty.add(*delta),
        NodeKind::Scale { factor } => duty.mul(*factor),
        _ => duty,
    }
}

/// Applies a folded node to whatever a reduction produces.
fn map_duty(reduction: Reduction, kind: &NodeKind) -> (r: Reduction)
    ensures
        r@ == mapped(reduction@, |d: Scalar| folded_duty(kind@, d)),
{
    match reduction {
        Reduction::Fixed { duty } => Reduction::Fixed { duty: fold_one(kind, duty) },
        Reduction::Curve { sensor_id, quantity, points } => {
            let ghost f = |d: Scalar| folded_duty(kind@, d);
            let ghost all = mapped_points(points@, f);
            let mut out: Vec<CurvePoint> = Vec::new();
            let n: usize = points.len();
            for i in 0..n
                invariant
                    n == points@.len(),
                    f == (|d: Scalar| folded_duty(kind@, d)),
                    all == mapped_points(points@, f),
                    out@ == all.take(i as int),
            {
                out.push(CurvePoint { x: points[i].x, y: fold_one(kind, points[i].y) });
                assert(out@ =~= all.take(i + 1));
            }
            assert(all.take(n as int) =~= all);
            Reduction::Curve { sensor_id, quantity, points: out }
        },
    }
}

/// Walks back along the duty path, folding what folds and recording what does not.
///
/// A path of more than `fuel` nodes goes round in circles, into which nothing is connected.
fn fold_duty(graph: &Graph, id: &NodeId, obstacles: &mut Vec<Obstacle>, fuel: usize) -> (r:
    Option<Reduction>)
    ensures
        match r {
            Some(x) => folded(graph@, id@, fuel as nat).0 == Some(x@),
            None => folded(graph@, id@, fuel as nat).0 is None,
        },
        obstacle_views(final(obstacles)@) == obstacle_views(old(obstacles)@) + folded(
            graph@,
            id@,
            fuel as nat,
        ).1,
    decreases fuel,
{
    assert(obstacle_views(obstacles@) + Seq::<ObstacleView>::empty() =~= obstacle_views(obstacles@));
    if fuel == 0 {
        obstruct(obstacles, id, ObstacleKind::NothingConnected);
        return None;
    }
    let node = match graph.node(id) {
        Some(n) => n,
        None => {
            obstruct(obstacles, id, ObstacleKind::NothingConnected);
            return None;
        },
    };
    let label = node.kind.default_label();
    match &node.kind {
        NodeKind::Constant { value } => Some(Reduction::Fixed { duty: *value }),
        NodeKind::Curve { points } => {
            match curve_sensor(graph, id, obstacles) {
                Some((sensor_id, quantity)) => Some(
                    Reduction::Curve { sensor_id, quantity, points: copy_points(points) },
                ),
                None => None,
            }
        },
        // Folds into whatever it is applied to.
        NodeKind::Clamp { .. } | NodeKind::Offset { .. } | NodeKind::Scale { .. } => {
            let source = match node_feeding(graph, id, "in") {
                Some(s) => s,
                None => {
                    obstruct(obstacles, id, ObstacleKind::NothingConnected);
                    return None;
                },
            };
            match fold_duty(graph, &source, obstacles, fuel - 1) {
                Some(inner) => Some(map_duty(inner, &node.kind)),
                None => None,
            }
        },
        NodeKind::Mix { .. } => {
            obstruct(obstacles, id, ObstacleKind::CombinesInputs { node_kind: label });
            None
        },
        other => {
            let alternative = chip_alternative(other);
            obstruct(
                obstacles,
                id,
                ObstacleKind::Unsupported { node_kind: label, chip_alternative: alternative },
            );
            None
        },
    }
}

fn lone(kind: ObstacleKind) -> (r: Vec<Obstacle>)
    ensures
        obstacle_views(r@) == seq![ObstacleView { node: None, kind: kind@ }],
{
    let r = vec![Obstacle { node: None, kind }];
    assert(obstacle_views(r@) =~= seq![ObstacleView { node: None, kind: kind@ }]);
    r
}

/// Reduces one channel's configuration, or explains what stopped it.
///
/// Every obstacle found is returned, not just the first.
pub fn reduce(graph: &Graph, channel: &str) -> (r: Result<Reduction, Vec<Obstacle>>)
    ensures
        verdict_view(r) == reduced(graph@, channel@),
{
    let ghost g = graph@;
    let mut outputs: Vec<NodeId> = Vec::new();
    let n: usize = graph.nodes.len();
    for i in 0..n
        invariant
            n == g.ids.len(),
            g == graph@,
            outputs@.len() == outputs_naming(g, channel@, i as nat).len(),
            forall|k: int|
                0 <= k < outputs@.len() ==> (#[trigger] outputs@[k])@ == outputs_naming(
                    g,
                    channel@,
                    i as nat,
                )[k],
    {
        let node = graph.nodes.value_at(i);
        assert(node@ == g.nodes[g.ids[i as int]]);
        if let NodeKind::FanOutput { channel: named } = &node.kind {
            if same(named.as_str(), channel) {
                outputs.push(graph.nodes.key_at(i).copy());
            }
        }
    }
    if outputs.len() == 0 {
        return Err(lone(ObstacleKind::NotDriven));
    }
    if outputs.len() > 1 {
        return Err(lone(ObstacleKind::DrivenTwice));
    }
    let output = outputs[0].copy();
    assert(outputs_naming(g, channel@, n as nat)[0] == outputs@[0]@);
    let mut obstacles: Vec<Obstacle> = Vec::new();
    assert(obstacle_views(obstacles@) =~= Seq::empty());
    let source = match node_feeding(graph, &output, "duty") {
        Some(s) => s,
        None => {
            obstruct(&mut obstacles, &output, ObstacleKind::NothingConnected);
            assert(obstacle_views(obstacles@) =~= blocked_by(output@, WhyView::NothingConnected));
            return Err(obstacles);
        },
    };
    let folded_path = fold_duty(graph, &source, &mut obstacles, n);
    assert(obstacle_views(obstacles@) =~= folded(g, source@, n as nat).1);
    assert(obstacle_views(obstacles@).len() == obstacles@.len());
    match folded_path {
        Some(reduction) => {
            if obstacles.len() == 0 {
                Ok(reduction)
            } else {
                Err(obstacles)
            }
        },
        None => Err(obstacles),
    }
}

/// What every channel in a graph could do, keyed by channel id.
pub fn reduce_all(graph: &Graph) -> (r: OrdMap<String, Result<Reduction, Vec<Obstacle>>>)
    ensures
        forall|c: Text| #[trigger] r@.dom().contains(c) <==> graph@.drives(c),
        forall|c: Text| #[trigger]
            r@.dom().contains(c) ==> verdict_view(r@[c]) == reduced(graph@, c),
{
    let channels = graph.output_channels();
    proof {
        use_type_invariant(&channels);
        channels.lemma_wf();
    }
    let mut out: OrdMap<String, Result<Reduction, Vec<Obstacle>>> = OrdMap::new();
    let n: usize = channels.len();
    for i in 0..n
        invariant
            n == channels.names().len(),
            forall|c: Text|
                #![trigger out@.dom().contains(c)]
                out@.dom().contains(c) <==> exists|k: int|
                    0 <= k < i && #[trigger] channels.names()[k] == c,
            forall|c: Text| #[trigger]
                out@.dom().contains(c) ==> verdict_view(out@[c]) == reduced(graph@, c),
    {
        let channel = channels.key_at(i);
        let verdict = reduce(graph, channel.as_str());
        let ghost before = out@;
        out.insert(channel.clone(), verdict);
        proof {
            assert forall|c: Text|
                #![trigger out@.dom().contains(c)]
                out@.dom().contains(c) <==> exists|k: int|
                    0 <= k < i + 1 && #[trigger] channels.names()[k] == c by {
                if before.dom().contains(c) {
                    let k = choose|k: int| 0 <= k < i && #[trigger] channels.names()[k] == c;
                    assert(0 <= k < i + 1);
                }
                if c == channel@ {
                    assert(channels.names()[i as int] == c);
                }
                if exists|k: int| 0 <= k < i + 1 && #[trigger] channels.names()[k] == c {
                    let k = choose|k: int| 0 <= k < i + 1 && #[trigger] channels.names()[k] == c;
                    if k < i {
                        assert(before.dom().contains(c));
                    }
                }
            }
        }
    }
    proof {
        assert forall|c: Text| #[trigger] out@.dom().contains(c) <==> graph@.drives(c) by {
            if channels@.dom().contains(c) {
                let k = channels.names().index_of(c);
                assert(channels.names()[k] == c);
            }
            if out@.dom().contains(c) {
                let k = choose|k: int| 0 <= k < n && #[trigger] channels.names()[k] == c;
                assert(channels@.dom().contains(channels.names()[k]));
            }
        }
    }
    out
}

// --- Laws ----------------------------------------------------------------------------------------

/// A reduction is only ever offered when nothing was dropped on the way.
pub proof fn a_partial_reduction_is_not_offered(g: GraphView, channel: Text)
    requires
        reduced(g, channel) is Ok,
    ensures
        outputs_naming(g, channel, g.ids.len()).len() == 1,
        ({
            let source = source_of(g, outputs_naming(g, channel, g.ids.len())[0], "duty"@);
            &&& source is Some
            &&& folded(g, source->0, g.ids.len()).1.len() == 0
            &&& folded(g, source->0, g.ids.len()).0 == Some(reduced(g, channel)->Ok_0)
        }),
{
}

proof fn lemma_folded_explained(g: GraphView, node: Text, fuel: nat)
    ensures
        folded(g, node, fuel).0 is Some <==> folded(g, node, fuel).1.len() == 0,
    decreases fuel,
{
    if fuel > 0 && g.nodes.dom().contains(node) {
        match source_of(g, node, "in"@) {
            Some(source) => {
                lemma_folded_explained(g, source, (fuel - 1) as nat);
            },
            None => {},
        }
    }
}

/// A channel that does not reduce always comes with an explanation of what stopped it.
pub proof fn a_refusal_is_explained(g: GraphView, channel: Text)
    requires
        reduced(g, channel) is Err,
    ensures
        reduced(g, channel)->Err_0.len() > 0,
{
    let outputs = outputs_naming(g, channel, g.ids.len());
    if outputs.len() == 1 {
        if let Some(source) = source_of(g, outputs[0], "duty"@) {
            lemma_folded_explained(g, source, g.ids.len());
        }
    }
}

proof fn lemma_placed_mapped(points: Seq<CurvePoint>, p: CurvePoint, f: spec_fn(Scalar) -> Scalar)
    ensures
        placed(mapped_points(points, f), CurvePoint { x: p.x, y: f(p.y) }) == mapped_points(
            placed(points, p),
            f,
        ),
    decreases points.len(),
{
    let m = mapped_points(points, f);
    let q = CurvePoint { x: p.x, y: f(p.y) };
    if points.len() > 0 && p.x.below(points.last().x) {
        lemma_placed_mapped(points.drop_last(), p, f);
        assert(m.drop_last() =~= mapped_points(points.drop_last(), f));
        assert(placed(m, q) =~= mapped_points(placed(points, p), f));
    } else {
        assert(placed(m, q) =~= mapped_points(placed(points, p), f));
    }
}

pub proof fn lemma_sorted_mapped(points: Seq<CurvePoint>, f: spec_fn(Scalar) -> Scalar)
    ensures
        left_to_right(mapped_points(points, f)) == mapped_points(left_to_right(points), f),
        left_to_right(points).len() == points.len(),
    decreases points.len(),
{
    let m = mapped_points(points, f);
    if points.len() == 0 {
        assert(m =~= mapped_points(left_to_right(points), f));
    } else {
        lemma_sorted_mapped(points.drop_last(), f);
        assert(m.drop_last() =~= mapped_points(points.drop_last(), f));
        lemma_placed_mapped(left_to_right(points.drop_last()), points.last(), f);
        crate::eval::sorting_keeps_the_points(points);
    }
}

pub proof fn lemma_standing_mapped(
    points: Seq<CurvePoint>,
    f: spec_fn(Scalar) -> Scalar,
    x: Scalar,
    n: nat,
)
    requires
        n <= points.len(),
    ensures
        standing(mapped_points(points, f), x, n).len() == standing(points, x, n).len(),
    decreases n,
{
    if n > 0 {
        lemma_standing_mapped(points, f, x, (n - 1) as nat);
    }
}

/// Folding a step into a curve's points is applying it afterwards, wherever the curve is
/// flat: left of its first point and right of its last one, and not on a step.
pub proof fn folding_is_exact_outside_the_curve(
    points: Seq<CurvePoint>,
    f: spec_fn(Scalar) -> Scalar,
    x: Scalar,
)
    requires
        points.len() > 0,
        x.finite(),
        x.at_most(left_to_right(points)[0].x) || left_to_right(points).last().x.at_most(x),
        standing(left_to_right(points), x, points.len()).len() <= 1,
    ensures
        interpolated(mapped_points(points, f), x) == f(interpolated(points, x)),
{
    lemma_sorted_mapped(points, f);
    lemma_standing_mapped(left_to_right(points), f, x, points.len());
}

} // verus!
