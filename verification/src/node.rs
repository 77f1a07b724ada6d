//! What a node type provides: a factory of evaluators, and evaluators that run
//! once per tick. Node types implement these traits.

use vstd::prelude::*;

use crate::error::AqueductResult;
use crate::maps::PropertyMap;
use crate::model::{NodeDef, NodeDefView, PinValue};

verus! {

/// What one evaluation of a node produced.
#[derive(Debug, PartialEq)]
pub enum NodeEvalResult {
    /// Outputs, one per output pin, available now.
    Ready(Vec<PinValue>),
    /// An asynchronous job was started; its outputs arrive later.
    Spawned {
        /// The job's id.
        job_id: u64,
    },
}

/// A node's evaluation function, with whatever state it keeps between ticks.
pub trait NodeEvaluator: Send {
    /// What this evaluator, in its present state, may answer for `inputs` at `tick`.
    /// A node type that does not say answers anything.
    closed spec fn answers(&self, inputs: Seq<PinValue>, tick: u64, r: AqueductResult<NodeEvalResult>) -> bool {
        true
    }

    /// Evaluates the node for one tick, given its inputs in input-pin order.
    fn evaluate(&mut self, inputs: &[PinValue], tick: u64) -> (r: AqueductResult<NodeEvalResult>)
        ensures
            old(self).answers(inputs@, tick, r),
    ;

    /// What this evaluator, in its present state, may answer when property `key`
    /// is set to `value`. A node type that does not say answers anything.
    closed spec fn patches(&self, key: Seq<char>, value: serde_json::Value, r: AqueductResult<()>) -> bool {
        true
    }

    /// Applies a property change without recompiling.
    fn apply_property_patch(&mut self, key: &str, value: &serde_json::Value) -> (r: AqueductResult<()>)
        ensures
            old(self).patches(key@, *value, r),
    ;
}

/// A node type: its definition, and a way to make evaluators for its instances.
pub trait NodeFactory: Send + Sync {
    /// Whether `d` is a definition this factory may report. A node type that does
    /// not say may report any.
    closed spec fn defines(&self, d: NodeDefView) -> bool {
        true
    }

    /// The node type's definition.
    fn node_def(&self) -> (r: NodeDef)
        ensures
            self.defines(r@),
    ;

    /// What this factory may answer when asked for an evaluator for an instance
    /// with properties `properties`.
    /// A node type that does not say may answer anything.
    closed spec fn creates(&self, properties: Seq<(Seq<char>, serde_json::Value)>, r: AqueductResult<Box<dyn NodeEvaluator>>) -> bool {
        true
    }

    /// Makes an evaluator for an instance with the given properties.
    fn create(&self, properties: &PropertyMap) -> (r: AqueductResult<Box<dyn NodeEvaluator>>)
        ensures
            self.creates(properties@, r),
    ;
}

} // verus!
