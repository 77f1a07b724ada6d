//! Built-in node types whose work is logic, integers or text: stateless nodes
//! that compute their outputs from their inputs and the tick, and `time.elapsed`.

use vstd::prelude::*;

use crate::error::{AqueductError, AqueductResult, ErrorKind};
use crate::ids::PinId;
use crate::json::{json_as_i64, json_as_u64, json_i64, json_u64};
use crate::maps::PropertyMap;
use crate::model::{same_value, Direction, NodeDef, NodeDefView, PinDef, PinType, PinValue, Property};
use crate::node::{NodeEvalResult, NodeEvaluator, NodeFactory};
use crate::registry::{names_registered, registration_error, NodeRegistry};
use crate::text::{has_substring, lower_text, parse_i64, parsed_i64, replace_text, replaced, text_contains, to_lower, to_upper, trim_text, trimmed, upper_text};

verus! {

/// An input pin named after its id.
pub fn input_pin(id: &str, pin_type: PinType) -> (r: PinDef)
    ensures
        r.id@ == id@,
        r.name@ == id@,
        r.pin_type == pin_type,
        r.direction == Direction::Input,
{
    PinDef { id: PinId::new(id), name: String::from_str(id), pin_type, direction: Direction::Input }
}

/// An output pin named after its id.
pub fn output_pin(id: &str, pin_type: PinType) -> (r: PinDef)
    ensures
        r.id@ == id@,
        r.name@ == id@,
        r.pin_type == pin_type,
        r.direction == Direction::Output,
{
    PinDef { id: PinId::new(id), name: String::from_str(id), pin_type, direction: Direction::Output }
}

/// `value`, or `i64::MAX` when it is larger.
pub open spec fn saturated(value: nat) -> i64 {
    if value <= i64::MAX {
        value as i64
    } else {
        i64::MAX
    }
}

/// `value` as an `i64`, or `i64::MAX` when it is larger.
pub fn usize_to_i64_saturating(value: usize) -> (r: i64)
    ensures
        r == saturated(value as nat),
{
    if value as u64 <= 0x7FFF_FFFF_FFFF_FFFF {
        value as i64
    } else {
        0x7FFF_FFFF_FFFF_FFFF
    }
}

/// `value` as an `i64`, or `i64::MAX` when it is larger.
pub fn u64_to_i64_saturating(value: u64) -> (r: i64)
    ensures
        r == saturated(value as nat),
{
    if value <= 0x7FFF_FFFF_FFFF_FFFF {
        value as i64
    } else {
        0x7FFF_FFFF_FFFF_FFFF
    }
}

/// Input `i` as an integer; 0 when it is missing or holds no integer.
pub open spec fn int_at(inputs: Seq<PinValue>, i: int) -> i64 {
    if 0 <= i < inputs.len() {
        match inputs[i] {
            PinValue::Int(v) => v,
            _ => 0,
        }
    } else {
        0
    }
}

/// Input `i` as a boolean; false when it is missing or holds no boolean.
pub open spec fn bool_at(inputs: Seq<PinValue>, i: int) -> bool {
    if 0 <= i < inputs.len() {
        match inputs[i] {
            PinValue::Bool(v) => v,
            _ => false,
        }
    } else {
        false
    }
}

/// Input `i` as text; empty when it is missing or holds no string.
pub open spec fn text_at(inputs: Seq<PinValue>, i: int) -> Seq<char> {
    if 0 <= i < inputs.len() {
        match inputs[i] {
            PinValue::String(s) => s@,
            _ => Seq::empty(),
        }
    } else {
        Seq::empty()
    }
}

/// Input `i`; no value when it is missing.
pub open spec fn value_at(inputs: Seq<PinValue>, i: int) -> PinValue {
    if 0 <= i < inputs.len() {
        inputs[i]
    } else {
        PinValue::Nothing
    }
}

/// Input `index` as an integer (see `int_at`).
pub fn int_input(inputs: &[PinValue], index: usize) -> (r: i64)
    ensures
        r == int_at(inputs@, index as int),
{
    if index < inputs.len() {
        match &inputs[index] {
            PinValue::Int(v) => *v,
            _ => 0,
        }
    } else {
        0
    }
}

/// Input `index` as a boolean (see `bool_at`).
pub fn bool_input(inputs: &[PinValue], index: usize) -> (r: bool)
    ensures
        r == bool_at(inputs@, index as int),
{
    if index < inputs.len() {
        match &inputs[index] {
            PinValue::Bool(v) => *v,
            _ => false,
        }
    } else {
        false
    }
}

/// Input `index` as text (see `text_at`).
pub fn string_input(inputs: &[PinValue], index: usize) -> (r: String)
    ensures
        r@ == text_at(inputs@, index as int),
{
    if index < inputs.len() {
        match &inputs[index] {
            PinValue::String(s) => s.clone(),
            _ => String::new(),
        }
    } else {
        String::new()
    }
}

/// A copy of input `index` (see `value_at`).
pub fn any_input(inputs: &[PinValue], index: usize) -> (r: PinValue)
    ensures
        r == value_at(inputs@, index as int),
{
    if index < inputs.len() {
        inputs[index].clone()
    } else {
        PinValue::Nothing
    }
}

/// The work of a stateless built-in node.
#[derive(Debug, Clone, Copy, PartialEq, Eq, Structural)]
pub enum BuiltinOp {
    /// `logic.and`
    LogicAnd,
    /// `logic.or`
    LogicOr,
    /// `logic.not`
    LogicNot,
    /// `logic.equals`
    LogicEquals,
    /// `logic.select`
    LogicSelect,
    /// `string.concat`
    StringConcat,
    /// `string.length`
    StringLength,
    /// `string.uppercase`
    StringUppercase,
    /// `string.lowercase`
    StringLowercase,
    /// `string.contains`
    StringContains,
    /// `string.replace`
    StringReplace,
    /// `string.trim`
    StringTrim,
    /// `time.tick`
    TimeTick,
    /// `convert.parse_int`
    ConvertParseInt,
    /// `convert.bool_to_int`
    ConvertBoolToInt,
}

/// `out` is a string with text `t`.
pub open spec fn is_text(out: PinValue, t: Seq<char>) -> bool {
    out matches PinValue::String(s) && s@ == t
}

/// `outputs` is what the node `op` produces from `inputs` in tick `tick`: one
/// value; logic on the boolean inputs, equality of the first two inputs, a choice
/// between inputs 1 and 2, text operations on the text inputs, the character count
/// of a text (saturated), the tick (saturated), a parsed integer (0 when the text
/// is no integer), or 1 or 0 for a boolean.
pub open spec fn builtin_outputs(op: BuiltinOp, inputs: Seq<PinValue>, tick: u64, outputs: Seq<PinValue>) -> bool {
    &&& outputs.len() == 1
    &&& match op {
        BuiltinOp::LogicAnd => outputs[0] == PinValue::Bool(bool_at(inputs, 0) && bool_at(inputs, 1)),
        BuiltinOp::LogicOr => outputs[0] == PinValue::Bool(bool_at(inputs, 0) || bool_at(inputs, 1)),
        BuiltinOp::LogicNot => outputs[0] == PinValue::Bool(!bool_at(inputs, 0)),
        BuiltinOp::LogicEquals => outputs[0] == PinValue::Bool(same_value(value_at(inputs, 0), value_at(inputs, 1))),
        BuiltinOp::LogicSelect => outputs[0] == if bool_at(inputs, 0) {
            value_at(inputs, 1)
        } else {
            value_at(inputs, 2)
        },
        BuiltinOp::StringConcat => is_text(outputs[0], text_at(inputs, 0) + text_at(inputs, 1)),
        BuiltinOp::StringLength => outputs[0] == PinValue::Int(saturated(text_at(inputs, 0).len())),
        BuiltinOp::StringUppercase => is_text(outputs[0], upper_text(text_at(inputs, 0))),
        BuiltinOp::StringLowercase => is_text(outputs[0], lower_text(text_at(inputs, 0))),
        BuiltinOp::StringContains => outputs[0] == PinValue::Bool(has_substring(text_at(inputs, 0), text_at(inputs, 1))),
        BuiltinOp::StringReplace => is_text(outputs[0], replaced(text_at(inputs, 0), text_at(inputs, 1), text_at(inputs, 2))),
        BuiltinOp::StringTrim => is_text(outputs[0], trimmed(text_at(inputs, 0))),
        BuiltinOp::TimeTick => outputs[0] == PinValue::Int(saturated(tick as nat)),
        BuiltinOp::ConvertParseInt => outputs[0] == PinValue::Int(
            match parsed_i64(text_at(inputs, 0)) {
                Some(v) => v,
                None => 0,
            },
        ),
        BuiltinOp::ConvertBoolToInt => outputs[0] == PinValue::Int(if bool_at(inputs, 0) { 1 } else { 0 }),
    }
}

/// The outputs of the node `op` for `inputs` in tick `tick` (see `builtin_outputs`).
pub fn eval_builtin(op: BuiltinOp, inputs: &[PinValue], tick: u64) -> (r: Vec<PinValue>)
    ensures
        builtin_outputs(op, inputs@, tick, r@),
{
    let out = match op {
        BuiltinOp::LogicAnd => {
            let a = bool_input(inputs, 0);
            let b = bool_input(inputs, 1);
            PinValue::Bool(a && b)
        },
        BuiltinOp::LogicOr => {
            let a = bool_input(inputs, 0);
            let b = bool_input(inputs, 1);
            PinValue::Bool(a || b)
        },
        BuiltinOp::LogicNot => PinValue::Bool(!bool_input(inputs, 0)),
        BuiltinOp::LogicEquals => {
            let left = any_input(inputs, 0);
            let right = any_input(inputs, 1);
            PinValue::Bool(left == right)
        },
        BuiltinOp::LogicSelect => {
            if bool_input(inputs, 0) {
                any_input(inputs, 1)
            } else {
                any_input(inputs, 2)
            }
        },
        BuiltinOp::StringConcat => {
            let left = string_input(inputs, 0);
            let right = string_input(inputs, 1);
            PinValue::String(left.concat(right.as_str()))
        },
        BuiltinOp::StringLength => {
            let text = string_input(inputs, 0);
            PinValue::Int(usize_to_i64_saturating(text.as_str().unicode_len()))
        },
        BuiltinOp::StringUppercase => {
            let text = string_input(inputs, 0);
            PinValue::String(to_upper(text.as_str()))
        },
        BuiltinOp::StringLowercase => {
            let text = string_input(inputs, 0);
            PinValue::String(to_lower(text.as_str()))
        },
        BuiltinOp::StringContains => {
            let haystack = string_input(inputs, 0);
            let needle = string_input(inputs, 1);
            PinValue::Bool(text_contains(haystack.as_str(), needle.as_str()))
        },
        BuiltinOp::StringReplace => {
            let source = string_input(inputs, 0);
            let from = string_input(inputs, 1);
            let to = string_input(inputs, 2);
            PinValue::String(replace_text(source.as_str(), from.as_str(), to.as_str()))
        },
        BuiltinOp::StringTrim => {
            let source = string_input(inputs, 0);
            PinValue::String(String::from_str(trim_text(source.as_str())))
        },
        BuiltinOp::TimeTick => PinValue::Int(u64_to_i64_saturating(tick)),
        BuiltinOp::ConvertParseInt => {
            let text = string_input(inputs, 0);
            let parsed = match parse_i64(text.as_str()) {
                Some(v) => v,
                None => 0,
            };
            PinValue::Int(parsed)
        },
        BuiltinOp::ConvertBoolToInt => PinValue::Int(if bool_input(inputs, 0) { 1 } else { 0 }),
    };
    let mut outputs: Vec<PinValue> = Vec::new();
    outputs.push(out);
    outputs
}

/// The definition of a node type without properties.
pub fn node_def(node_type: &str, inputs: Vec<PinDef>, outputs: Vec<PinDef>) -> (r: NodeDef)
    ensures
        r@ == (NodeDefView { node_type: node_type@, inputs: inputs@, outputs: outputs@, properties: Seq::empty() }),
{
    let properties: Vec<Property> = Vec::new();
    let r = NodeDef { node_type: String::from_str(node_type), inputs, outputs, properties };
    assert(r@.properties =~= Seq::<Property>::empty());
    r
}

/// A stateless built-in node type: its definition and its work.
#[derive(Debug)]
pub struct StatelessFactory {
    /// The definition.
    pub node_def: NodeDef,
    /// The work.
    pub op: BuiltinOp,
}

impl StatelessFactory {
    /// A node type defined by `node_def` that does `op`.
    pub fn new(node_def: NodeDef, op: BuiltinOp) -> (r: Self)
        ensures
            r.node_def == node_def,
            r.op == op,
    {
        StatelessFactory { node_def, op }
    }
}

/// The evaluator of a stateless built-in node.
#[derive(Debug)]
pub struct StatelessEvaluator {
    /// The work.
    pub op: BuiltinOp,
}

impl StatelessEvaluator {
    /// Evaluates the node: always ready, with the outputs of its work (see
    /// `builtin_outputs`).
    pub fn outputs(&self, inputs: &[PinValue], tick: u64) -> (r: Vec<PinValue>)
        ensures
            builtin_outputs(self.op, inputs@, tick, r@),
    {
        eval_builtin(self.op, inputs, tick)
    }
}

/// What a stateless evaluator doing `op` answers: always ready, with the
/// outputs of `op`.
pub open spec fn stateless_answers(op: BuiltinOp, inputs: Seq<PinValue>, tick: u64, r: AqueductResult<NodeEvalResult>) -> bool {
    r matches Ok(NodeEvalResult::Ready(outputs)) && builtin_outputs(op, inputs, tick, outputs@)
}

impl NodeEvaluator for StatelessEvaluator {
    open spec fn answers(&self, inputs: Seq<PinValue>, tick: u64, r: AqueductResult<NodeEvalResult>) -> bool {
        stateless_answers(self.op, inputs, tick, r)
    }

    fn evaluate(&mut self, inputs: &[PinValue], tick: u64) -> (r: AqueductResult<NodeEvalResult>)
        ensures
            r matches Ok(NodeEvalResult::Ready(outputs)) && builtin_outputs(old(self).op, inputs@, tick, outputs@),
            final(self).op == old(self).op,
    {
        Ok(NodeEvalResult::Ready(self.outputs(inputs, tick)))
    }

    open spec fn patches(&self, key: Seq<char>, value: serde_json::Value, r: AqueductResult<()>) -> bool {
        r is Ok
    }

    fn apply_property_patch(&mut self, _key: &str, _value: &serde_json::Value) -> (r: AqueductResult<()>)
        ensures
            r is Ok,
            final(self).op == old(self).op,
    {
        Ok(())
    }
}

impl NodeFactory for StatelessFactory {
    open spec fn defines(&self, d: NodeDefView) -> bool {
        d == self.node_def@
    }

    fn node_def(&self) -> (r: NodeDef)
        ensures
            r@ == self.node_def@,
    {
        self.node_def.clone()
    }

    open spec fn creates(&self, properties: Seq<(Seq<char>, serde_json::Value)>, r: AqueductResult<Box<dyn NodeEvaluator>>) -> bool {
        r matches Ok(b) && forall|inputs: Seq<PinValue>, tick: u64, x: AqueductResult<NodeEvalResult>|
            #[trigger] b.answers(inputs, tick, x) <==> stateless_answers(self.op, inputs, tick, x)
    }

    fn create(&self, _properties: &PropertyMap) -> (r: AqueductResult<Box<dyn NodeEvaluator>>)
        ensures
            r is Ok,
    {
        Ok(Box::new(StatelessEvaluator { op: self.op }))
    }
}

/// `p` is pin `spec.0` (named after its id) of type `spec.1` and direction `dir`.
pub open spec fn pin_is(p: PinDef, spec: (Seq<char>, PinType), dir: Direction) -> bool {
    p.id@ == spec.0 && p.name@ == spec.0 && p.pin_type == spec.1 && p.direction == dir
}

/// `d` is the definition of node type `name` with the input pins `inputs` and the
/// output pins `outputs`, in order, and no properties.
pub open spec fn defines(
    d: NodeDefView,
    name: Seq<char>,
    inputs: Seq<(Seq<char>, PinType)>,
    outputs: Seq<(Seq<char>, PinType)>,
) -> bool {
    &&& d.node_type == name
    &&& d.inputs.len() == inputs.len()
    &&& forall|i: int| 0 <= i < inputs.len() ==> pin_is(#[trigger] d.inputs[i], inputs[i], Direction::Input)
    &&& d.outputs.len() == outputs.len()
    &&& forall|i: int| 0 <= i < outputs.len() ==> pin_is(#[trigger] d.outputs[i], outputs[i], Direction::Output)
    &&& d.properties.len() == 0
}

/// `f` is the stateless node type `name` with the given pins, doing `op`.
pub open spec fn stateless_is(
    f: StatelessFactory,
    name: Seq<char>,
    inputs: Seq<(Seq<char>, PinType)>,
    outputs: Seq<(Seq<char>, PinType)>,
    op: BuiltinOp,
) -> bool {
    defines(f.node_def@, name, inputs, outputs) && f.op == op
}

/// The pins `(a, t)` then `(b, u)`.
fn two_inputs(a: &str, t: PinType, b: &str, u: PinType) -> (r: Vec<PinDef>)
    ensures
        r@.len() == 2,
        pin_is(r@[0], (a@, t), Direction::Input),
        pin_is(r@[1], (b@, u), Direction::Input),
{
    let mut pins: Vec<PinDef> = Vec::new();
    pins.push(input_pin(a, t));
    pins.push(input_pin(b, u));
    pins
}

/// The pin `(a, t)`, an input when `input`, else an output.
fn one_pin(a: &str, t: PinType, input: bool) -> (r: Vec<PinDef>)
    ensures
        r@.len() == 1,
        pin_is(r@[0], (a@, t), if input { Direction::Input } else { Direction::Output }),
{
    let mut pins: Vec<PinDef> = Vec::new();
    if input {
        pins.push(input_pin(a, t));
    } else {
        pins.push(output_pin(a, t));
    }
    pins
}

/// `logic.not`: `a` to `out`, booleans, doing `op`.
pub fn unary_bool_factory(node_type: &str, op: BuiltinOp) -> (r: StatelessFactory)
    ensures
        stateless_is(r, node_type@, seq![("a"@, PinType::Bool)], seq![("out"@, PinType::Bool)], op),
{
    let inputs = one_pin("a", PinType::Bool, true);
    let outputs = one_pin("out", PinType::Bool, false);
    StatelessFactory::new(node_def(node_type, inputs, outputs), op)
}

/// `logic.and`, `logic.or`: `a` and `b` to `out`, booleans, doing `op`.
pub fn binary_bool_factory(node_type: &str, op: BuiltinOp) -> (r: StatelessFactory)
    ensures
        stateless_is(r, node_type@, seq![("a"@, PinType::Bool), ("b"@, PinType::Bool)], seq![("out"@, PinType::Bool)], op),
{
    let inputs = two_inputs("a", PinType::Bool, "b", PinType::Bool);
    let outputs = one_pin("out", PinType::Bool, false);
    StatelessFactory::new(node_def(node_type, inputs, outputs), op)
}

/// A stateless node type with one input pin and output `out`.
fn unary_factory(node_type: &str, input: &str, input_type: PinType, output_type: PinType, op: BuiltinOp) -> (r: StatelessFactory)
    ensures
        stateless_is(r, node_type@, seq![(input@, input_type)], seq![("out"@, output_type)], op),
{
    let inputs = one_pin(input, input_type, true);
    let outputs = one_pin("out", output_type, false);
    StatelessFactory::new(node_def(node_type, inputs, outputs), op)
}

/// A stateless node type with two input pins and output `out`.
fn binary_factory(
    node_type: &str,
    a: &str,
    a_type: PinType,
    b: &str,
    b_type: PinType,
    output_type: PinType,
    op: BuiltinOp,
) -> (r: StatelessFactory)
    ensures
        stateless_is(r, node_type@, seq![(a@, a_type), (b@, b_type)], seq![("out"@, output_type)], op),
{
    let inputs = two_inputs(a, a_type, b, b_type);
    let outputs = one_pin("out", output_type, false);
    StatelessFactory::new(node_def(node_type, inputs, outputs), op)
}

/// A stateless node type with three input pins and output `out`.
fn ternary_factory(
    node_type: &str,
    a: (&str, PinType),
    b: (&str, PinType),
    c: (&str, PinType),
    output_type: PinType,
    op: BuiltinOp,
) -> (r: StatelessFactory)
    ensures
        stateless_is(r, node_type@, seq![(a.0@, a.1), (b.0@, b.1), (c.0@, c.1)], seq![("out"@, output_type)], op),
{
    let mut inputs = two_inputs(a.0, a.1, b.0, b.1);
    inputs.push(input_pin(c.0, c.1));
    let outputs = one_pin("out", output_type, false);
    StatelessFactory::new(node_def(node_type, inputs, outputs), op)
}

/// The logic node types without floating-point work: `logic.and`, `logic.or`,
/// `logic.not`, `logic.equals` and `logic.select`.
pub fn logic_factories() -> (r: Vec<StatelessFactory>)
    ensures
        r@.len() == 5,
        stateless_is(r@[0], "logic.and"@, seq![("a"@, PinType::Bool), ("b"@, PinType::Bool)], seq![("out"@, PinType::Bool)], BuiltinOp::LogicAnd),
        stateless_is(r@[1], "logic.or"@, seq![("a"@, PinType::Bool), ("b"@, PinType::Bool)], seq![("out"@, PinType::Bool)], BuiltinOp::LogicOr),
        stateless_is(r@[2], "logic.not"@, seq![("a"@, PinType::Bool)], seq![("out"@, PinType::Bool)], BuiltinOp::LogicNot),
        stateless_is(r@[3], "logic.equals"@, seq![("a"@, PinType::Any), ("b"@, PinType::Any)], seq![("out"@, PinType::Bool)], BuiltinOp::LogicEquals),
        stateless_is(
            r@[4],
            "logic.select"@,
            seq![("condition"@, PinType::Bool), ("if_true"@, PinType::Any), ("if_false"@, PinType::Any)],
            seq![("out"@, PinType::Any)],
            BuiltinOp::LogicSelect,
        ),
{
    let mut factories: Vec<StatelessFactory> = Vec::new();
    factories.push(binary_bool_factory("logic.and", BuiltinOp::LogicAnd));
    factories.push(binary_bool_factory("logic.or", BuiltinOp::LogicOr));
    factories.push(unary_bool_factory("logic.not", BuiltinOp::LogicNot));
    factories.push(binary_factory("logic.equals", "a", PinType::Any, "b", PinType::Any, PinType::Bool, BuiltinOp::LogicEquals));
    factories.push(
        ternary_factory(
            "logic.select",
            ("condition", PinType::Bool),
            ("if_true", PinType::Any),
            ("if_false", PinType::Any),
            PinType::Any,
            BuiltinOp::LogicSelect,
        ),
    );
    factories
}

/// The text node types other than `string.format`: `string.concat`,
/// `string.length`, `string.uppercase`, `string.lowercase`, `string.contains`,
/// `string.replace` and `string.trim`.
pub fn string_factories() -> (r: Vec<StatelessFactory>)
    ensures
        r@.len() == 7,
        stateless_is(r@[0], "string.concat"@, seq![("a"@, PinType::String), ("b"@, PinType::String)], seq![("out"@, PinType::String)], BuiltinOp::StringConcat),
        stateless_is(r@[1], "string.length"@, seq![("s"@, PinType::String)], seq![("out"@, PinType::Int)], BuiltinOp::StringLength),
        stateless_is(r@[2], "string.uppercase"@, seq![("s"@, PinType::String)], seq![("out"@, PinType::String)], BuiltinOp::StringUppercase),
        stateless_is(r@[3], "string.lowercase"@, seq![("s"@, PinType::String)], seq![("out"@, PinType::String)], BuiltinOp::StringLowercase),
        stateless_is(
            r@[4],
            "string.contains"@,
            seq![("haystack"@, PinType::String), ("needle"@, PinType::String)],
            seq![("out"@, PinType::Bool)],
            BuiltinOp::StringContains,
        ),
        stateless_is(
            r@[5],
            "string.replace"@,
            seq![("s"@, PinType::String), ("from"@, PinType::String), ("to"@, PinType::String)],
            seq![("out"@, PinType::String)],
            BuiltinOp::StringReplace,
        ),
        stateless_is(r@[6], "string.trim"@, seq![("s"@, PinType::String)], seq![("out"@, PinType::String)], BuiltinOp::StringTrim),
{
    let mut factories: Vec<StatelessFactory> = Vec::new();
    factories.push(binary_factory("string.concat", "a", PinType::String, "b", PinType::String, PinType::String, BuiltinOp::StringConcat));
    factories.push(unary_factory("string.length", "s", PinType::String, PinType::Int, BuiltinOp::StringLength));
    factories.push(unary_factory("string.uppercase", "s", PinType::String, PinType::String, BuiltinOp::StringUppercase));
    factories.push(unary_factory("string.lowercase", "s", PinType::String, PinType::String, BuiltinOp::StringLowercase));
    factories.push(
        binary_factory("string.contains", "haystack", PinType::String, "needle", PinType::String, PinType::Bool, BuiltinOp::StringContains),
    );
    factories.push(
        ternary_factory(
            "string.replace",
            ("s", PinType::String),
            ("from", PinType::String),
            ("to", PinType::String),
            PinType::String,
            BuiltinOp::StringReplace,
        ),
    );
    factories.push(unary_factory("string.trim", "s", PinType::String, PinType::String, BuiltinOp::StringTrim));
    factories
}

/// The stateless time node type `time.tick`, whose output `tick` is the tick;
/// `time.elapsed` is `TimeElapsedFactory`.
pub fn time_factories() -> (r: Vec<StatelessFactory>)
    ensures
        r@.len() == 1,
        stateless_is(r@[0], "time.tick"@, Seq::empty(), seq![("tick"@, PinType::Int)], BuiltinOp::TimeTick),
{
    let inputs: Vec<PinDef> = Vec::new();
    let outputs = one_pin("tick", PinType::Int, false);
    let mut factories: Vec<StatelessFactory> = Vec::new();
    factories.push(StatelessFactory::new(node_def("time.tick", inputs, outputs), BuiltinOp::TimeTick));
    proof {
        assert(factories@[0].node_def@.inputs =~= Seq::<PinDef>::empty());
    }
    factories
}

/// The conversion node types without floating-point work: `convert.parse_int` and
/// `convert.bool_to_int`.
pub fn convert_factories() -> (r: Vec<StatelessFactory>)
    ensures
        r@.len() == 2,
        stateless_is(r@[0], "convert.parse_int"@, seq![("s"@, PinType::String)], seq![("out"@, PinType::Int)], BuiltinOp::ConvertParseInt),
        stateless_is(r@[1], "convert.bool_to_int"@, seq![("a"@, PinType::Bool)], seq![("out"@, PinType::Int)], BuiltinOp::ConvertBoolToInt),
{
    let mut factories: Vec<StatelessFactory> = Vec::new();
    factories.push(unary_factory("convert.parse_int", "s", PinType::String, PinType::Int, BuiltinOp::ConvertParseInt));
    factories.push(unary_factory("convert.bool_to_int", "a", PinType::Bool, PinType::Int, BuiltinOp::ConvertBoolToInt));
    factories
}

/// The value of `start_tick`: a non-negative integer.
pub fn parse_u64(value: &serde_json::Value) -> (r: AqueductResult<u64>)
    ensures
        match json_as_u64(*value) {
            Some(n) => r == Ok::<u64, AqueductError>(n),
            None => match json_as_i64(*value) {
                Some(m) => if m >= 0 {
                    r == Ok::<u64, AqueductError>(m as u64)
                } else {
                    r matches Err(e) && e.spec_kind() == ErrorKind::Node && e.spec_code()@ == "TIME_ELAPSED_INVALID_START_TICK"@
                        && e.spec_message() == "start_tick は 0 以上の整数である必要があります"@
                },
                None => r matches Err(e) && e.spec_kind() == ErrorKind::Node && e.spec_code()@ == "TIME_ELAPSED_INVALID_START_TICK"@
                    && e.spec_message() == "start_tick は 0 以上の整数である必要があります"@,
            },
        },
{
    match json_u64(value) {
        Some(n) => {
            return Ok(n);
        },
        None => {},
    }
    match json_i64(value) {
        Some(m) => {
            if m >= 0 {
                return Ok(m as u64);
            }
        },
        None => {},
    }
    Err(AqueductError::new(
        ErrorKind::Node,
        "TIME_ELAPSED_INVALID_START_TICK",
        String::from_str("start_tick は 0 以上の整数である必要があります"),
    ))
}

/// The evaluator of `time.elapsed`: the ticks since `start_tick`.
#[derive(Debug)]
pub struct TimeElapsedEvaluator {
    /// The tick counted from.
    pub start_tick: u64,
}

impl TimeElapsedEvaluator {
    /// The ticks from `start_tick` to `tick` (0 before it), saturated.
    pub fn elapsed(&self, tick: u64) -> (r: i64)
        ensures
            r == saturated(if tick >= self.start_tick { (tick - self.start_tick) as nat } else { 0 }),
    {
        u64_to_i64_saturating(tick.saturating_sub(self.start_tick))
    }

    /// Takes a new `start_tick`; other properties are ignored.
    pub fn set_property(&mut self, key: &str, value: &serde_json::Value) -> (r: AqueductResult<()>)
        ensures
            key@ != "start_tick"@ ==> r is Ok && final(self).start_tick == old(self).start_tick,
            key@ == "start_tick"@ ==> match parse_u64_result(*value) {
                Some(n) => r is Ok && final(self).start_tick == n,
                None => r matches Err(e) && invalid_start_tick(e) && final(self).start_tick == old(self).start_tick,
            },
    {
        if !crate::ids::text_equal(key, "start_tick") {
            return Ok(());
        }
        match parse_u64(value) {
            Ok(n) => {
                self.start_tick = n;
                Ok(())
            },
            Err(e) => Err(e),
        }
    }
}

/// `e` is the error of a `start_tick` that is not a non-negative integer.
pub open spec fn invalid_start_tick(e: AqueductError) -> bool {
    &&& e.spec_kind() == ErrorKind::Node
    &&& e.spec_code()@ == "TIME_ELAPSED_INVALID_START_TICK"@
    &&& e.spec_message() == "start_tick は 0 以上の整数である必要があります"@
}

/// The value that `parse_u64` accepts for a JSON value, if any.
pub open spec fn parse_u64_result(value: serde_json::Value) -> Option<u64> {
    match json_as_u64(value) {
        Some(n) => Some(n),
        None => match json_as_i64(value) {
            Some(m) => if m >= 0 {
                Some(m as u64)
            } else {
                None
            },
            None => None,
        },
    }
}

/// What a `time.elapsed` evaluator counting from `start_tick` answers at `tick`:
/// always ready, with the ticks since `start_tick` (0 before it), saturated.
pub open spec fn elapsed_answers(start_tick: u64, tick: u64, r: AqueductResult<NodeEvalResult>) -> bool {
    r matches Ok(NodeEvalResult::Ready(outputs)) && outputs@ == seq![PinValue::Int(
        saturated(if tick >= start_tick { (tick - start_tick) as nat } else { 0 }),
    )]
}

impl NodeEvaluator for TimeElapsedEvaluator {
    open spec fn answers(&self, inputs: Seq<PinValue>, tick: u64, r: AqueductResult<NodeEvalResult>) -> bool {
        elapsed_answers(self.start_tick, tick, r)
    }

    fn evaluate(&mut self, _inputs: &[PinValue], tick: u64) -> (r: AqueductResult<NodeEvalResult>)
        ensures
            r matches Ok(NodeEvalResult::Ready(outputs)) && outputs@ == seq![PinValue::Int(
                saturated(if tick >= old(self).start_tick { (tick - old(self).start_tick) as nat } else { 0 }),
            )],
            final(self).start_tick == old(self).start_tick,
    {
        let mut outputs: Vec<PinValue> = Vec::new();
        outputs.push(PinValue::Int(self.elapsed(tick)));
        Ok(NodeEvalResult::Ready(outputs))
    }

    open spec fn patches(&self, key: Seq<char>, value: serde_json::Value, r: AqueductResult<()>) -> bool {
        if key != "start_tick"@ {
            r is Ok
        } else {
            match parse_u64_result(value) {
                Some(n) => r is Ok,
                None => r matches Err(e) && invalid_start_tick(e),
            }
        }
    }

    fn apply_property_patch(&mut self, key: &str, value: &serde_json::Value) -> (r: AqueductResult<()>)
        ensures
            key@ != "start_tick"@ ==> r is Ok && final(self).start_tick == old(self).start_tick,
            key@ == "start_tick"@ ==> match parse_u64_result(*value) {
                Some(n) => r is Ok && final(self).start_tick == n,
                None => r matches Err(e) && invalid_start_tick(e) && final(self).start_tick == old(self).start_tick,
            },
    {
        self.set_property(key, value)
    }
}

/// The `start_tick` that properties `properties` give an instance of
/// `time.elapsed`: 0 when absent; an error when not a non-negative integer.
pub open spec fn start_tick_of(properties: Seq<(Seq<char>, serde_json::Value)>) -> Result<u64, ()> {
    match crate::keyed::lookup(properties, "start_tick"@) {
        Some(v) => match parse_u64_result(v) {
            Some(n) => Ok(n),
            None => Err(()),
        },
        None => Ok(0),
    }
}

/// `d` is the definition of `time.elapsed`: no inputs, the output `elapsed` of
/// type `Int`, and the property `start_tick`, whose default is the number 0.
pub open spec fn is_time_elapsed_def(d: NodeDefView) -> bool {
    &&& d.node_type == "time.elapsed"@
    &&& d.inputs.len() == 0
    &&& d.outputs.len() == 1
    &&& d.outputs[0].id@ == "elapsed"@ && d.outputs[0].name@ == "elapsed"@
    &&& d.outputs[0].pin_type == PinType::Int && d.outputs[0].direction == Direction::Output
    &&& d.properties.len() == 1
    &&& d.properties[0].key@ == "start_tick"@ && d.properties[0].name@ == "start_tick"@
    &&& d.properties[0].description matches Some(t) && t@ == "elapsed の基準 tick"@
    &&& json_as_u64(d.properties[0].default_value) == Some(0u64)
}

/// The factory of `time.elapsed`, whose output `elapsed` counts the ticks since
/// its `start_tick` property.
#[derive(Debug)]
pub struct TimeElapsedFactory;

impl TimeElapsedFactory {
    /// The evaluator for an instance: `start_tick` from the properties (0 when
    /// absent); refused when it is not a non-negative integer.
    pub fn evaluator(&self, properties: &PropertyMap) -> (r: AqueductResult<TimeElapsedEvaluator>)
        ensures
            match crate::keyed::lookup(properties@, "start_tick"@) {
                Some(v) => match parse_u64_result(v) {
                    Some(n) => r matches Ok(ev) && ev.start_tick == n,
                    None => r matches Err(e) && invalid_start_tick(e),
                },
                None => r matches Ok(ev) && ev.start_tick == 0,
            },
    {
        proof {
            reveal_strlit("start_tick");
        }
        let start_tick = match properties.get("start_tick") {
            Some(v) => match parse_u64(v) {
                Ok(n) => n,
                Err(e) => {
                    return Err(e);
                },
            },
            None => 0,
        };
        Ok(TimeElapsedEvaluator { start_tick })
    }

    /// The definition of `time.elapsed`.
    pub fn definition(&self) -> (r: NodeDef)
        ensures
            is_time_elapsed_def(r@),
    {
        let inputs: Vec<PinDef> = Vec::new();
        let mut outputs: Vec<PinDef> = Vec::new();
        outputs.push(output_pin("elapsed", PinType::Int));
        let mut properties: Vec<Property> = Vec::new();
        properties.push(Property {
            key: String::from_str("start_tick"),
            name: String::from_str("start_tick"),
            description: Some(String::from_str("elapsed の基準 tick")),
            default_value: crate::json::json_from_u64(0),
        });
        NodeDef { node_type: String::from_str("time.elapsed"), inputs, outputs, properties }
    }
}

impl NodeFactory for TimeElapsedFactory {
    open spec fn defines(&self, d: NodeDefView) -> bool {
        is_time_elapsed_def(d)
    }

    open spec fn creates(&self, properties: Seq<(Seq<char>, serde_json::Value)>, r: AqueductResult<Box<dyn NodeEvaluator>>) -> bool {
        match start_tick_of(properties) {
            Ok(n) => r matches Ok(b) && forall|inputs: Seq<PinValue>, tick: u64, x: AqueductResult<NodeEvalResult>|
                #[trigger] b.answers(inputs, tick, x) <==> elapsed_answers(n, tick, x),
            Err(()) => r matches Err(e) && invalid_start_tick(e),
        }
    }

    fn node_def(&self) -> (r: NodeDef)
        ensures
            is_time_elapsed_def(r@),
    {
        self.definition()
    }

    fn create(&self, properties: &PropertyMap) -> (r: AqueductResult<Box<dyn NodeEvaluator>>)
        ensures
            match crate::keyed::lookup(properties@, "start_tick"@) {
                Some(v) => match parse_u64_result(v) {
                    Some(n) => r is Ok,
                    None => r matches Err(e) && invalid_start_tick(e),
                },
                None => r is Ok,
            },
    {
        match self.evaluator(properties) {
            Ok(ev) => Ok(Box::new(ev)),
            Err(e) => Err(e),
        }
    }
}

/// The type names of `factories`, in order.
pub open spec fn factory_names(factories: Seq<StatelessFactory>) -> Seq<Seq<char>> {
    factories.map_values(|f: StatelessFactory| f.node_def@.node_type)
}

/// Registration of the types `names`, one after the other, into a registry holding
/// `before`, ended in `after` with result `r`: all were registered, or the first
/// `k` were and the next was refused with `r`'s error.
pub open spec fn registered_in_turn(
    before: Seq<NodeDefView>,
    after: Seq<NodeDefView>,
    names: Seq<Seq<char>>,
    r: AqueductResult<()>,
) -> bool {
    &&& r is Ok ==> names_registered(before, after, names)
    &&& r matches Err(e) ==> e.spec_kind() == ErrorKind::Registry && exists|k: int| {
        &&& 0 <= k < names.len()
        &&& #[trigger] names_registered(before, after, names.take(k))
        &&& registration_error(after, names[k]) == Some((e.spec_code()@, e.spec_message()))
    }
}

/// Registers `factory` under its definition.
fn register_one(registry: &mut NodeRegistry, factory: StatelessFactory) -> (r: AqueductResult<()>)
    requires
        old(registry).wf(),
    ensures
        final(registry).wf(),
        r is Ok ==> final(registry)@ == old(registry)@.push(factory.node_def@),
        r matches Err(e) ==> final(registry)@ == old(registry)@ && e.spec_kind() == ErrorKind::Registry
            && registration_error(old(registry)@, factory.node_def@.node_type) == Some((e.spec_code()@, e.spec_message())),
{
    let r = registry.register(Box::new(factory));
    proof {
        if r is Ok {
            assert(registry@ =~= old(registry)@.push(factory.node_def@)) by {
                assert forall|i: int| 0 <= i < old(registry)@.len() implies registry@[i] == old(registry)@[i] by {
                    assert(registry@.take(old(registry)@.len() as int)[i] == old(registry)@[i]);
                }
            }
        }
    }
    r
}

/// Registers `factories` in order, stopping at the first that is refused.
fn register_stateless(registry: &mut NodeRegistry, factories: Vec<StatelessFactory>) -> (r: AqueductResult<()>)
    requires
        old(registry).wf(),
    ensures
        final(registry).wf(),
        registered_in_turn(old(registry)@, final(registry)@, factory_names(factories@), r),
{
    let ghost names = factory_names(factories@);
    let ghost d0 = registry@;
    let n = factories.len();
    proof {
        assert(names.take(0) =~= Seq::<Seq<char>>::empty());
        assert(d0.take(d0.len() as int) =~= d0);
    }
    let mut rest = factories;
    let mut k: usize = 0;
    while rest.len() > 0
        invariant
            registry.wf(),
            names.len() == k + rest@.len(),
            k + rest@.len() == n,
            forall|i: int| 0 <= i < rest@.len() ==> #[trigger] rest@[i].node_def@.node_type == names[k + i],
            names_registered(d0, registry@, names.take(k as int)),
            names == factory_names(factories@),
            d0 == old(registry)@,
        decreases rest@.len(),
    {
        let ghost before = registry@;
        let ghost rest0 = rest@;
        let factory = rest.remove(0);
        assert(factory.node_def@.node_type == names[k as int]) by {
            assert(rest0[0] == factory);
        }
        match register_one(registry, factory) {
            Ok(()) => {},
            Err(e) => {
                proof {
                    assert(names_registered(d0, registry@, names.take(k as int)));
                    assert(registration_error(registry@, names[k as int]) == Some((e.spec_code()@, e.spec_message())));
                    assert(0 <= k < names.len());
                }
                return Err(e);
            },
        }
        proof {
            let t = names.take(k + 1);
            assert forall|i: int| 0 <= i < t.len() implies #[trigger] registry@[d0.len() + i].node_type == t[i] by {
                if i < k {
                    assert(names.take(k as int)[i] == t[i]);
                    assert(registry@[d0.len() + i] == before[d0.len() + i]);
                }
            }
            assert(registry@.take(d0.len() as int) =~= d0) by {
                assert forall|i: int| 0 <= i < d0.len() implies registry@[i] == d0[i] by {
                    assert(registry@[i] == before[i]);
                    assert(before.take(d0.len() as int)[i] == d0[i]);
                }
            }
            assert forall|i: int| 0 <= i < rest@.len() implies #[trigger] rest@[i].node_def@.node_type == names[k + 1 + i] by {
                assert(rest@[i] == rest0[i + 1]);
            }
        }
        k = k + 1;
    }
    proof {
        assert(names.take(k as int) =~= names);
    }
    Ok(())
}

/// Registering types `x` after types `w` registers the types `w + x`.
proof fn lemma_names_registered_concat(
    a: Seq<NodeDefView>,
    b: Seq<NodeDefView>,
    c: Seq<NodeDefView>,
    w: Seq<Seq<char>>,
    x: Seq<Seq<char>>,
)
    requires
        names_registered(a, b, w),
        names_registered(b, c, x),
    ensures
        names_registered(a, c, w + x),
{
    assert(c.take(a.len() as int) =~= a) by {
        assert forall|i: int| 0 <= i < a.len() implies c[i] == a[i] by {
            assert(c.take(b.len() as int)[i] == b[i]);
            assert(b.take(a.len() as int)[i] == a[i]);
        }
    }
    assert forall|i: int| 0 <= i < (w + x).len() implies #[trigger] c[a.len() + i].node_type == (w + x)[i] by {
        if i < w.len() {
            assert(c.take(b.len() as int)[a.len() + i] == b[a.len() + i]);
            assert(b[a.len() + i].node_type == w[i]);
        } else {
            let j = i - w.len();
            assert(c[b.len() + j].node_type == x[j]);
        }
    }
}

/// Registering types `x` in turn after types `w` were registered registers the
/// types `w + x` in turn.
proof fn lemma_registered_in_turn_after(
    a: Seq<NodeDefView>,
    b: Seq<NodeDefView>,
    c: Seq<NodeDefView>,
    w: Seq<Seq<char>>,
    x: Seq<Seq<char>>,
    r: AqueductResult<()>,
)
    requires
        names_registered(a, b, w),
        registered_in_turn(b, c, x, r),
    ensures
        registered_in_turn(a, c, w + x, r),
{
    if r is Ok {
        lemma_names_registered_concat(a, b, c, w, x);
    }
    if r is Err {
        let e = r->Err_0;
        let k = choose|k: int| {
            &&& 0 <= k < x.len()
            &&& #[trigger] names_registered(b, c, x.take(k))
            &&& registration_error(c, x[k]) == Some((e.spec_code()@, e.spec_message()))
        };
        lemma_names_registered_concat(a, b, c, w, x.take(k));
        assert(w + x.take(k) =~= (w + x).take(w.len() + k));
        assert((w + x)[w.len() + k] == x[k]);
        assert(names_registered(a, c, (w + x).take(w.len() + k)));
    }
}

/// A registration in turn that stopped on a refusal stopped there too as the
/// start of a longer list.
proof fn lemma_refused_in_longer(a: Seq<NodeDefView>, c: Seq<NodeDefView>, x: Seq<Seq<char>>, y: Seq<Seq<char>>, r: AqueductResult<()>)
    requires
        registered_in_turn(a, c, x, r),
        r is Err,
    ensures
        registered_in_turn(a, c, x + y, r),
{
    let e = r->Err_0;
    let k = choose|k: int| {
        &&& 0 <= k < x.len()
        &&& #[trigger] names_registered(a, c, x.take(k))
        &&& registration_error(c, x[k]) == Some((e.spec_code()@, e.spec_message()))
    };
    assert(x.take(k) =~= (x + y).take(k));
    assert((x + y)[k] == x[k]);
    assert(names_registered(a, c, (x + y).take(k)));
}

/// Registers `time.elapsed`.
fn register_elapsed(registry: &mut NodeRegistry) -> (r: AqueductResult<()>)
    requires
        old(registry).wf(),
    ensures
        final(registry).wf(),
        registered_in_turn(old(registry)@, final(registry)@, seq!["time.elapsed"@], r),
{
    let r = registry.register(Box::new(TimeElapsedFactory));
    proof {
        let names = seq!["time.elapsed"@];
        if r is Ok {
            assert(is_time_elapsed_def(registry@.last()));
            assert(registry@[old(registry)@.len() + 0int].node_type == names[0]);
        }
        if r is Err {
            let e = r->Err_0;
            let d = choose|d: NodeDefView| #[trigger] TimeElapsedFactory.defines(d)
                && registration_error(old(registry)@, d.node_type) == Some((e.spec_code()@, e.spec_message()));
            assert(names.take(0) =~= Seq::<Seq<char>>::empty());
            assert(old(registry)@.take(old(registry)@.len() as int) =~= old(registry)@);
            assert(names_registered(old(registry)@, registry@, names.take(0)));
        }
    }
    r
}

/// The type names of the node types that `register_builtin_nodes` registers, in
/// order.
pub open spec fn library_node_types() -> Seq<Seq<char>> {
    seq![
        "string.concat"@, "string.length"@, "string.uppercase"@, "string.lowercase"@, "string.contains"@,
        "string.replace"@, "string.trim"@, "logic.and"@, "logic.or"@, "logic.not"@, "logic.equals"@,
        "logic.select"@, "time.tick"@, "time.elapsed"@, "convert.parse_int"@, "convert.bool_to_int"@,
    ]
}

/// Registers the built-in node types of this library, one after the other: the
/// string, logic and time types, then the conversions; stops at the first that
/// is refused.
pub fn register_builtin_nodes(registry: &mut NodeRegistry) -> (r: AqueductResult<()>)
    requires
        old(registry).wf(),
    ensures
        final(registry).wf(),
        registered_in_turn(old(registry)@, final(registry)@, library_node_types(), r),
{
    let ghost d0 = registry@;
    let string = string_factories();
    let logic = logic_factories();
    let time = time_factories();
    let convert = convert_factories();
    let ghost sn = factory_names(string@);
    let ghost ln = factory_names(logic@);
    let ghost tn = factory_names(time@);
    let ghost cn = factory_names(convert@);
    proof {
        assert(sn =~= seq!["string.concat"@, "string.length"@, "string.uppercase"@, "string.lowercase"@, "string.contains"@, "string.replace"@, "string.trim"@]);
        assert(ln =~= seq!["logic.and"@, "logic.or"@, "logic.not"@, "logic.equals"@, "logic.select"@]);
        assert(tn =~= seq!["time.tick"@]);
        assert(cn =~= seq!["convert.parse_int"@, "convert.bool_to_int"@]);
        assert(library_node_types() =~= sn + ln + tn + seq!["time.elapsed"@] + cn);
        assert(Seq::<Seq<char>>::empty() + sn =~= sn);
        assert(d0.take(d0.len() as int) =~= d0);
        assert(names_registered(d0, d0, Seq::empty()));
    }
    let ghost d1 = registry@;
    let r1 = register_stateless(registry, string);
    proof {
        lemma_registered_in_turn_after(d0, d1, registry@, Seq::empty(), sn, r1);
    }
    if r1.is_err() {
        proof {
            assert(Seq::<Seq<char>>::empty() + sn =~= sn);
            lemma_refused_in_longer(d0, registry@, sn, ln + tn + seq!["time.elapsed"@] + cn, r1);
            assert(sn + (ln + tn + seq!["time.elapsed"@] + cn) =~= library_node_types());
        }
        return r1;
    }
    let ghost d2 = registry@;
    let r2 = register_stateless(registry, logic);
    proof {
        lemma_registered_in_turn_after(d0, d2, registry@, sn, ln, r2);
    }
    if r2.is_err() {
        proof {
            lemma_refused_in_longer(d0, registry@, sn + ln, tn + seq!["time.elapsed"@] + cn, r2);
            assert(sn + ln + (tn + seq!["time.elapsed"@] + cn) =~= library_node_types());
        }
        return r2;
    }
    let ghost d3 = registry@;
    let r3 = register_stateless(registry, time);
    proof {
        lemma_registered_in_turn_after(d0, d3, registry@, sn + ln, tn, r3);
    }
    if r3.is_err() {
        proof {
            lemma_refused_in_longer(d0, registry@, sn + ln + tn, seq!["time.elapsed"@] + cn, r3);
            assert(sn + ln + tn + (seq!["time.elapsed"@] + cn) =~= library_node_types());
        }
        return r3;
    }
    let ghost d4 = registry@;
    let r4 = register_elapsed(registry);
    proof {
        lemma_registered_in_turn_after(d0, d4, registry@, sn + ln + tn, seq!["time.elapsed"@], r4);
    }
    if r4.is_err() {
        proof {
            lemma_refused_in_longer(d0, registry@, sn + ln + tn + seq!["time.elapsed"@], cn, r4);
        }
        return r4;
    }
    let ghost d5 = registry@;
    let r5 = register_stateless(registry, convert);
    proof {
        lemma_registered_in_turn_after(d0, d5, registry@, sn + ln + tn + seq!["time.elapsed"@], cn, r5);
    }
    r5
}

/// What `string.format` outputs: `template`, or `fallback` (the node's
/// `template` property) when `template` is empty, with each `{}` replaced by
/// `arg_text`, the text of the node's argument.
pub fn format_template(template: &str, fallback: &str, arg_text: &str) -> (r: String)
    ensures
        r@ == replaced(if template@.len() == 0 { fallback@ } else { template@ }, "{}"@, arg_text@),
{
    let chosen = if template.is_empty() { fallback } else { template };
    replace_text(chosen, "{}", arg_text)
}

/// The logic node types, for any inputs: `and` is true exactly when both of the
/// first two inputs are the boolean true, `or` when either is, `not` when the
/// first is not; `select` gives the second input when the first is true and the
/// third otherwise (nothing when that input is missing); a missing input or one
/// that is no boolean counts as false. `bool_to_int` gives 1 for true and 0
/// otherwise, and `equals` compares the first two inputs.
pub proof fn lemma_logic_node_outputs(inputs: Seq<PinValue>, tick: u64, outputs: Seq<PinValue>, x: i64, y: i64, p: bool, q: bool)
    ensures
        builtin_outputs(BuiltinOp::LogicAnd, inputs, tick, outputs) ==> outputs.len() == 1 && outputs[0] == PinValue::Bool(
            inputs.len() >= 2 && inputs[0] == PinValue::Bool(true) && inputs[1] == PinValue::Bool(true),
        ),
        builtin_outputs(BuiltinOp::LogicOr, inputs, tick, outputs) ==> outputs.len() == 1 && outputs[0] == PinValue::Bool(
            (inputs.len() >= 1 && inputs[0] == PinValue::Bool(true)) || (inputs.len() >= 2 && inputs[1] == PinValue::Bool(true)),
        ),
        builtin_outputs(BuiltinOp::LogicNot, inputs, tick, outputs) ==> outputs.len() == 1 && outputs[0] == PinValue::Bool(
            !(inputs.len() >= 1 && inputs[0] == PinValue::Bool(true)),
        ),
        builtin_outputs(BuiltinOp::LogicSelect, inputs, tick, outputs) ==> outputs.len() == 1 && outputs[0] == if inputs.len()
            >= 1 && inputs[0] == PinValue::Bool(true) {
            if inputs.len() >= 2 { inputs[1] } else { PinValue::Nothing }
        } else {
            if inputs.len() >= 3 { inputs[2] } else { PinValue::Nothing }
        },
        builtin_outputs(BuiltinOp::ConvertBoolToInt, inputs, tick, outputs) ==> outputs.len() == 1 && outputs[0] == PinValue::Int(
            if inputs.len() >= 1 && inputs[0] == PinValue::Bool(true) { 1 } else { 0 },
        ),
        builtin_outputs(BuiltinOp::LogicEquals, inputs, tick, outputs) && inputs.len() >= 2 ==> outputs.len() == 1
            && outputs[0] == PinValue::Bool(same_value(inputs[0], inputs[1])),
        builtin_outputs(BuiltinOp::LogicEquals, inputs, tick, outputs) && inputs.len() >= 2 && inputs[0] == PinValue::Int(x)
            && inputs[1] == PinValue::Int(y) ==> outputs[0] == PinValue::Bool(x == y),
        builtin_outputs(BuiltinOp::LogicEquals, inputs, tick, outputs) && inputs.len() >= 2 && inputs[0] == PinValue::Bool(p)
            && inputs[1] == PinValue::Bool(q) ==> outputs[0] == PinValue::Bool(p == q),
{
}

/// The text node types, for any inputs that are texts: `concat` joins the first
/// two, `length` counts the characters of the first, and `uppercase`,
/// `lowercase`, `trim`, `replace` and `contains` give what `str::to_uppercase`,
/// `str::to_lowercase`, `str::trim`, `str::replace` and `str::contains` give for
/// them; a missing input or one that is no text counts as the empty text.
/// `time.tick` gives the tick, and `parse_int` the integer that the text reads
/// as, or 0.
pub proof fn lemma_text_node_outputs(inputs: Seq<PinValue>, tick: u64, outputs: Seq<PinValue>, a: String, b: String, c: String)
    ensures
        builtin_outputs(BuiltinOp::StringConcat, inputs, tick, outputs) && inputs.len() >= 2 && inputs[0] == PinValue::String(a)
            && inputs[1] == PinValue::String(b) ==> outputs.len() == 1 && (outputs[0] matches PinValue::String(t) && t@ == a@ + b@),
        builtin_outputs(BuiltinOp::StringConcat, inputs, tick, outputs) && inputs.len() == 0 ==> outputs.len() == 1 && (
        outputs[0] matches PinValue::String(t) && t@.len() == 0),
        builtin_outputs(BuiltinOp::StringLength, inputs, tick, outputs) && inputs.len() >= 1 && inputs[0] == PinValue::String(a)
            && a@.len() <= i64::MAX ==> outputs.len() == 1 && outputs[0] == PinValue::Int(a@.len() as i64),
        builtin_outputs(BuiltinOp::StringLength, inputs, tick, outputs) && (inputs.len() == 0 || !(inputs[0] is String))
            ==> outputs.len() == 1 && outputs[0] == PinValue::Int(0),
        builtin_outputs(BuiltinOp::StringUppercase, inputs, tick, outputs) && inputs.len() >= 1 && inputs[0] == PinValue::String(a)
            ==> outputs.len() == 1 && (outputs[0] matches PinValue::String(t) && t@ == upper_text(a@)),
        builtin_outputs(BuiltinOp::StringLowercase, inputs, tick, outputs) && inputs.len() >= 1 && inputs[0] == PinValue::String(a)
            ==> outputs.len() == 1 && (outputs[0] matches PinValue::String(t) && t@ == lower_text(a@)),
        builtin_outputs(BuiltinOp::StringTrim, inputs, tick, outputs) && inputs.len() >= 1 && inputs[0] == PinValue::String(a)
            ==> outputs.len() == 1 && (outputs[0] matches PinValue::String(t) && t@ == trimmed(a@)),
        builtin_outputs(BuiltinOp::StringReplace, inputs, tick, outputs) && inputs.len() >= 3 && inputs[0] == PinValue::String(a)
            && inputs[1] == PinValue::String(b) && inputs[2] == PinValue::String(c) ==> outputs.len() == 1 && (
        outputs[0] matches PinValue::String(t) && t@ == replaced(a@, b@, c@)),
        builtin_outputs(BuiltinOp::StringContains, inputs, tick, outputs) && inputs.len() >= 2 && inputs[0] == PinValue::String(a)
            && inputs[1] == PinValue::String(b) ==> outputs.len() == 1 && outputs[0] == PinValue::Bool(
            exists|i: int| 0 <= i && i + b@.len() <= a@.len() && #[trigger] a@.subrange(i, i + b@.len()) == b@,
        ),
        builtin_outputs(BuiltinOp::TimeTick, inputs, tick, outputs) && tick <= i64::MAX ==> outputs.len() == 1 && outputs[0]
            == PinValue::Int(tick as i64),
        builtin_outputs(BuiltinOp::ConvertParseInt, inputs, tick, outputs) && inputs.len() >= 1 && inputs[0] == PinValue::String(a)
            ==> outputs.len() == 1 && outputs[0] == PinValue::Int(
            match parsed_i64(a@) {
                Some(v) => v,
                None => 0,
            },
        ),
{
}

} // verus!
