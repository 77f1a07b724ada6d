//! The shared data model: pin types and values, node definitions and instances,
//! graphs, graph mutations, and the messages between clients and the server.
//!
//! Floating-point numbers travel as their IEEE-754 bit patterns (`u64`).

use vstd::prelude::*;

use crate::ids::{EdgeId, NodeId, PinId};
use crate::json::{json_eq, json_equal};
use crate::maps::{NodeMap, PropertyMap};

verus! {

/// The protocol version a client must present in its handshake.
pub const PROTOCOL_VERSION: &'static str = "0.1.0";

/// The type of data a pin carries.
#[derive(Debug, Clone, Copy, PartialEq, Eq, Structural)]
pub enum PinType {
    /// A floating-point number.
    Float,
    /// An integer.
    Int,
    /// A boolean.
    Bool,
    /// A string.
    String,
    /// Any JSON value.
    Json,
    /// An event pulse.
    Event,
    /// A type resolved on connection.
    Any,
}

/// A value on a pin.
#[derive(Debug)]
pub enum PinValue {
    /// A floating-point number, as its IEEE-754 bit pattern.
    Float(u64),
    /// An integer.
    Int(i64),
    /// A boolean.
    Bool(bool),
    /// A string.
    String(String),
    /// A JSON value.
    Json(serde_json::Value),
    /// An event firing.
    Event,
    /// No value.
    Nothing,
}

/// Whether an IEEE-754 double, given by its bits, is a NaN: all exponent bits
/// set and a nonzero fraction.
pub open spec fn float_is_nan(bits: u64) -> bool {
    (bits & 0x7FF0_0000_0000_0000u64) == 0x7FF0_0000_0000_0000u64
        && (bits & 0x000F_FFFF_FFFF_FFFFu64) != 0
}

/// IEEE-754 equality of two doubles given by their bits: no NaN equals
/// anything, positive and negative zero are equal, and otherwise the bits agree.
pub open spec fn float_bits_equal(a: u64, b: u64) -> bool {
    !float_is_nan(a) && !float_is_nan(b) && (a == b || ((a | b) & 0x7FFF_FFFF_FFFF_FFFFu64) == 0)
}

/// Compares two doubles, given by their bits, as `f64` equality does.
pub fn float_equal(a: u64, b: u64) -> (r: bool)
    ensures
        r == float_bits_equal(a, b),
{
    let a_nan = (a & 0x7FF0_0000_0000_0000u64) == 0x7FF0_0000_0000_0000u64
        && (a & 0x000F_FFFF_FFFF_FFFFu64) != 0;
    let b_nan = (b & 0x7FF0_0000_0000_0000u64) == 0x7FF0_0000_0000_0000u64
        && (b & 0x000F_FFFF_FFFF_FFFFu64) != 0;
    !a_nan && !b_nan && (a == b || ((a | b) & 0x7FFF_FFFF_FFFF_FFFFu64) == 0)
}

/// Whether two pin values are equal: same variant and equal payload (strings by
/// their text, integers by value, floats as `f64` equality compares them, JSON
/// values by their `==`).
pub open spec fn same_value(a: PinValue, b: PinValue) -> bool {
    match (a, b) {
        (PinValue::Float(x), PinValue::Float(y)) => float_bits_equal(x, y),
        (PinValue::Int(x), PinValue::Int(y)) => x == y,
        (PinValue::Bool(x), PinValue::Bool(y)) => x == y,
        (PinValue::String(x), PinValue::String(y)) => x@ == y@,
        (PinValue::Json(x), PinValue::Json(y)) => json_eq(x, y),
        (PinValue::Event, PinValue::Event) => true,
        (PinValue::Nothing, PinValue::Nothing) => true,
        _ => false,
    }
}

impl PartialEq for PinValue {
    fn eq(&self, other: &Self) -> (r: bool) {
        match (self, other) {
            (PinValue::Float(x), PinValue::Float(y)) => float_equal(*x, *y),
            (PinValue::Int(x), PinValue::Int(y)) => *x == *y,
            (PinValue::Bool(x), PinValue::Bool(y)) => *x == *y,
            (PinValue::String(x), PinValue::String(y)) => *x == *y,
            (PinValue::Json(x), PinValue::Json(y)) => json_equal(x, y),
            (PinValue::Event, PinValue::Event) => true,
            (PinValue::Nothing, PinValue::Nothing) => true,
            _ => false,
        }
    }
}

impl vstd::std_specs::cmp::PartialEqSpecImpl for PinValue {
    open spec fn obeys_eq_spec() -> bool {
        true
    }

    open spec fn eq_spec(&self, other: &Self) -> bool {
        same_value(*self, *other)
    }
}

impl Clone for PinValue {
    fn clone(&self) -> (r: Self)
        ensures
            r == *self,
    {
        match self {
            PinValue::Float(x) => PinValue::Float(*x),
            PinValue::Int(x) => PinValue::Int(*x),
            PinValue::Bool(x) => PinValue::Bool(*x),
            PinValue::String(x) => PinValue::String(x.clone()),
            PinValue::Json(x) => PinValue::Json(x.clone()),
            PinValue::Event => PinValue::Event,
            PinValue::Nothing => PinValue::Nothing,
        }
    }
}

/// The direction of a pin.
#[derive(Debug, Clone, Copy, PartialEq, Eq, Structural)]
pub enum Direction {
    /// An input pin.
    Input,
    /// An output pin.
    Output,
}

/// A property that a node type declares.
#[derive(Debug, PartialEq)]
pub struct Property {
    /// The property key.
    pub key: String,
    /// The display name.
    pub name: String,
    /// A description.
    pub description: Option<String>,
    /// The default value.
    pub default_value: serde_json::Value,
}

impl Clone for Property {
    fn clone(&self) -> (r: Self)
        ensures
            r == *self,
    {
        let description = match &self.description {
            Some(d) => Some(d.clone()),
            None => None,
        };
        Property {
            key: self.key.clone(),
            name: self.name.clone(),
            description,
            default_value: self.default_value.clone(),
        }
    }
}

/// A pin of a node type.
#[derive(Debug, PartialEq)]
pub struct PinDef {
    /// The pin's id.
    pub id: PinId,
    /// The display name.
    pub name: String,
    /// The type.
    pub pin_type: PinType,
    /// The direction.
    pub direction: Direction,
}

impl Clone for PinDef {
    fn clone(&self) -> (r: Self)
        ensures
            r == *self,
    {
        PinDef {
            id: self.id.clone(),
            name: self.name.clone(),
            pin_type: self.pin_type,
            direction: self.direction,
        }
    }
}

/// The model of a node type definition.
pub struct NodeDefView {
    pub node_type: Seq<char>,
    pub inputs: Seq<PinDef>,
    pub outputs: Seq<PinDef>,
    pub properties: Seq<Property>,
}

/// A node type: its name, pins and properties.
#[derive(Debug, PartialEq)]
pub struct NodeDef {
    /// The type name.
    pub node_type: String,
    /// The input pins.
    pub inputs: Vec<PinDef>,
    /// The output pins.
    pub outputs: Vec<PinDef>,
    /// The declared properties.
    pub properties: Vec<Property>,
}

impl View for NodeDef {
    type V = NodeDefView;

    open spec fn view(&self) -> NodeDefView {
        NodeDefView {
            node_type: self.node_type@,
            inputs: self.inputs@,
            outputs: self.outputs@,
            properties: self.properties@,
        }
    }
}

impl Clone for NodeDef {
    fn clone(&self) -> (r: Self)
        ensures
            r@ == self@,
    {
        let inputs = self.inputs.clone();
        let outputs = self.outputs.clone();
        let properties = self.properties.clone();
        assert(inputs@ =~= self.inputs@);
        assert(outputs@ =~= self.outputs@);
        assert(properties@ =~= self.properties@);
        NodeDef { node_type: self.node_type.clone(), inputs, outputs, properties }
    }
}

/// The model of a node instance.
pub struct NodeInstanceView {
    pub id: Seq<char>,
    pub node_type: Seq<char>,
    pub properties: Seq<(Seq<char>, serde_json::Value)>,
    pub position: (u32, u32),
}

/// A node placed on a graph.
#[derive(Debug, PartialEq)]
pub struct NodeInstance {
    /// The node's id.
    pub id: NodeId,
    /// The node's type name.
    pub node_type: String,
    /// The instance's properties.
    pub properties: PropertyMap,
    /// Its position in the editor, as the bit patterns of two `f32`.
    pub position: (u32, u32),
}

impl View for NodeInstance {
    type V = NodeInstanceView;

    open spec fn view(&self) -> NodeInstanceView {
        NodeInstanceView {
            id: self.id@,
            node_type: self.node_type@,
            properties: self.properties@,
            position: self.position,
        }
    }
}

impl Clone for NodeInstance {
    fn clone(&self) -> (r: Self)
        ensures
            r@ == self@,
    {
        NodeInstance {
            id: self.id.clone(),
            node_type: self.node_type.clone(),
            properties: self.properties.duplicate(),
            position: self.position,
        }
    }
}

/// A connection from an output pin to an input pin.
#[derive(Debug, PartialEq)]
pub struct Edge {
    /// The edge's id.
    pub id: EdgeId,
    /// The source node.
    pub from_node: NodeId,
    /// The source pin.
    pub from_pin: PinId,
    /// The target node.
    pub to_node: NodeId,
    /// The target pin.
    pub to_pin: PinId,
}

impl Clone for Edge {
    fn clone(&self) -> (r: Self)
        ensures
            r == *self,
    {
        Edge {
            id: self.id.clone(),
            from_node: self.from_node.clone(),
            from_pin: self.from_pin.clone(),
            to_node: self.to_node.clone(),
            to_pin: self.to_pin.clone(),
        }
    }
}

/// The model of a graph.
pub struct GraphView {
    pub nodes: Seq<(Seq<char>, NodeInstanceView)>,
    pub edges: Seq<Edge>,
}

/// A whole graph: its nodes by id and its edges.
#[derive(Debug, PartialEq)]
pub struct Graph {
    /// The nodes.
    pub nodes: NodeMap,
    /// The edges.
    pub edges: Vec<Edge>,
}

impl View for Graph {
    type V = GraphView;

    open spec fn view(&self) -> GraphView {
        GraphView { nodes: self.nodes@, edges: self.edges@ }
    }
}

impl Graph {
    /// The node map has distinct keys and every node's properties too.
    pub open spec fn wf(&self) -> bool {
        self.nodes.wf()
    }

    /// A copy of the graph.
    pub fn duplicate(&self) -> (r: Self)
        ensures
            r@ == self@,
    {
        let edges = self.edges.clone();
        assert(edges@ =~= self.edges@);
        Graph { nodes: self.nodes.duplicate(), edges }
    }
}

impl Clone for Graph {
    fn clone(&self) -> (r: Self)
        ensures
            r@ == self@,
    {
        self.duplicate()
    }
}

impl Default for Graph {
    fn default() -> (r: Self)
        ensures
            r@.nodes.len() == 0,
            r@.edges.len() == 0,
            r.wf(),
    {
        Graph { nodes: NodeMap::new(), edges: Vec::new() }
    }
}

/// A change to apply to a graph.
#[derive(Debug, PartialEq)]
#[allow(inconsistent_fields)]
pub enum GraphMutation {
    /// Add a node.
    AddNode {
        /// The node to add.
        instance: NodeInstance,
    },
    /// Remove a node.
    RemoveNode {
        /// The node to remove.
        id: NodeId,
    },
    /// Add an edge.
    AddEdge {
        /// The edge to add.
        edge: Edge,
    },
    /// Remove an edge.
    RemoveEdge {
        /// The edge to remove.
        id: EdgeId,
    },
    /// Set a node property.
    UpdateProperty {
        /// The node.
        node_id: NodeId,
        /// The property key.
        key: String,
        /// The new value.
        value: serde_json::Value,
    },
}

/// The state of the runtime.
#[derive(Debug, Clone, Copy, PartialEq, Eq, Structural)]
pub enum RuntimeState {
    /// Running.
    Running,
    /// Stopped.
    Stopped,
    /// Failed.
    Error,
}

/// A message from a client.
#[derive(Debug, PartialEq)]
pub enum ClientMessage {
    /// The compatibility handshake.
    Handshake {
        /// The client's protocol version.
        protocol_version: String,
    },
    /// Apply graph mutations.
    GraphMutate {
        /// The mutations.
        mutations: Vec<GraphMutation>,
    },
    /// Load a whole graph.
    GraphLoad {
        /// The graph.
        graph: Graph,
    },
    /// Save the graph.
    GraphSave,
    /// Recompile the graph.
    GraphCompile,
    /// Start the runtime.
    RuntimeStart,
    /// Stop the runtime.
    RuntimeStop,
    /// Change the tick rate.
    RuntimeSetTickRate {
        /// The target rate in Hz, as the bit pattern of an `f64`.
        hz: u64,
    },
    /// List the node types.
    RegistryList,
    /// Subscribe to pins.
    PinSubscribe {
        /// The pins.
        pin_ids: Vec<PinId>,
    },
    /// Unsubscribe from pins.
    PinUnsubscribe {
        /// The pins.
        pin_ids: Vec<PinId>,
    },
}

/// A message from the server.
#[derive(Debug, PartialEq)]
pub enum ServerMessage {
    /// The compatibility handshake.
    Handshake {
        /// The server's protocol version.
        protocol_version: String,
    },
    /// The latest values of subscribed pins.
    PinValues {
        /// The values by pin id.
        values: Vec<(PinId, PinValue)>,
    },
    /// The runtime's state.
    RuntimeState {
        /// The state.
        state: RuntimeState,
    },
    /// A compilation result.
    GraphCompiled {
        /// The evaluation order.
        eval_order: Vec<NodeId>,
        /// Warnings.
        warnings: Vec<String>,
    },
    /// An error.
    Error {
        /// The error code.
        code: String,
        /// The message.
        message: String,
        /// The node concerned.
        node_id: Option<NodeId>,
    },
    /// The node types.
    RegistryNodes {
        /// The definitions.
        defs: Vec<NodeDef>,
    },
}

/// A client message with its request id.
#[derive(Debug, PartialEq)]
pub struct ClientEnvelope {
    /// The request id.
    pub request_id: u64,
    /// The message.
    pub body: ClientMessage,
}

/// A server message, with the request it answers and the graph revision.
#[derive(Debug, PartialEq)]
pub struct ServerEnvelope {
    /// The request answered, if any.
    pub request_id: Option<u64>,
    /// The message.
    pub body: ServerMessage,
    /// The server's graph revision.
    pub graph_rev: u64,
}

} // verus!
