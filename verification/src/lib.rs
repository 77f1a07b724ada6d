//! A dataflow engine: node graphs are validated, ordered and compiled, then
//! evaluated tick by tick over a store of pin values, and patched while they run.

pub mod ids;
pub mod keyed;
pub mod error;
pub mod json;
pub mod maps;
pub mod model;
pub mod node;
pub mod registry;
pub mod text;
pub mod pin_store;
pub mod graph;
pub mod patch;
pub mod compiler;
pub mod runtime;
pub mod session;
pub mod dispatcher;
pub mod nodes;

pub use compiler::{AsyncJobResult, CompiledGraph, CompiledNode, GraphCompiler};
pub use dispatcher::{run_tick_and_collect_diffs, MessageDispatcher, TickResult};
pub use error::{AqueductError, AqueductResult, ErrorKind};
pub use graph::{detect_cycle, downstream_nodes, topological_sort, validate_graph};
pub use ids::{EdgeId, NodeId, PinId};
pub use maps::{NodeMap, PropertyMap};
pub use model::{
    ClientEnvelope, ClientMessage, Direction, Edge, Graph, GraphMutation, NodeDef, NodeInstance, PinDef, PinType, PinValue,
    Property, RuntimeState, ServerEnvelope, ServerMessage, PROTOCOL_VERSION,
};
pub use node::{NodeEvalResult, NodeEvaluator, NodeFactory};
pub use patch::{apply_mutations, GraphPatcher, PatchReport};
pub use pin_store::{PinStore, ScopedPinId};
pub use registry::NodeRegistry;
pub use runtime::{LiveGraph, TickDriver};
pub use session::{SessionManager, SessionPinDiff, SessionState};
