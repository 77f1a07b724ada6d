//! The store of pin values: the latest value of each value pin, and the event
//! pins fired during the current tick.

use vstd::prelude::*;

use crate::error::{concat3, AqueductError, AqueductResult, ErrorKind};
use crate::ids::{NodeId, PinId};
use crate::json::{json_is_null, json_null};
use crate::keyed::{has_key, key_index, keyed_insert, keys_distinct, lemma_insert_distinct, lemma_key_index, lookup};
use crate::model::{Graph, NodeDefView, NodeInstanceView, PinDef, PinType, PinValue};
use crate::registry::{def_lookup, has_def, NodeRegistry};

verus! {

/// A pin qualified by the node instance it belongs to.
#[derive(Debug, Eq, Hash)]
pub struct ScopedPinId {
    /// The node.
    pub node_id: NodeId,
    /// The pin, local to the node.
    pub pin_id: PinId,
}

impl View for ScopedPinId {
    type V = (Seq<char>, Seq<char>);

    open spec fn view(&self) -> (Seq<char>, Seq<char>) {
        (self.node_id@, self.pin_id@)
    }
}

impl ScopedPinId {
    /// Qualifies `pin_id` by `node_id`.
    pub fn new(node_id: NodeId, pin_id: PinId) -> (r: Self)
        ensures
            r.node_id == node_id,
            r.pin_id == pin_id,
    {
        ScopedPinId { node_id, pin_id }
    }
}

impl Clone for ScopedPinId {
    fn clone(&self) -> (r: Self)
        ensures
            r == *self,
    {
        ScopedPinId { node_id: self.node_id.clone(), pin_id: self.pin_id.clone() }
    }
}

impl PartialEq for ScopedPinId {
    fn eq(&self, other: &Self) -> (r: bool) {
        self.node_id == other.node_id && self.pin_id == other.pin_id
    }
}

impl vstd::std_specs::cmp::PartialEqSpecImpl for ScopedPinId {
    open spec fn obeys_eq_spec() -> bool {
        true
    }

    open spec fn eq_spec(&self, other: &Self) -> bool {
        self@ == other@
    }
}

/// Whether `v` is the value a fresh pin of type `t` holds: 0, false, the empty
/// string, JSON null or no value; event pins hold none.
pub open spec fn is_default_value(t: PinType, v: PinValue) -> bool {
    match t {
        PinType::Float => v == PinValue::Float(0),
        PinType::Int => v == PinValue::Int(0),
        PinType::Bool => v == PinValue::Bool(false),
        PinType::String => v matches PinValue::String(s) && s@.len() == 0,
        PinType::Json => v matches PinValue::Json(j) && json_is_null(j),
        PinType::Any => v == PinValue::Nothing,
        PinType::Event => false,
    }
}

/// The pin type whose values `v` belongs to (`Any` for no value).
pub open spec fn value_type(v: PinValue) -> PinType {
    match v {
        PinValue::Float(_) => PinType::Float,
        PinValue::Int(_) => PinType::Int,
        PinValue::Bool(_) => PinType::Bool,
        PinValue::String(_) => PinType::String,
        PinValue::Json(_) => PinType::Json,
        PinValue::Event => PinType::Event,
        PinValue::Nothing => PinType::Any,
    }
}

/// The keys of `values`, each with the type of its value.
pub open spec fn keys_with_types(values: Seq<((Seq<char>, Seq<char>), PinValue)>) -> Seq<((Seq<char>, Seq<char>), PinType)> {
    values.map_values(|e: ((Seq<char>, Seq<char>), PinValue)| (e.0, value_type(e.1)))
}

proof fn lemma_keys_with_types_has(values: Seq<((Seq<char>, Seq<char>), PinValue)>, k: (Seq<char>, Seq<char>))
    ensures
        has_key(keys_with_types(values), k) == has_key(values, k),
{
    let kw = keys_with_types(values);
    if has_key(values, k) {
        let i = choose|i: int| 0 <= i < values.len() && #[trigger] values[i].0 == k;
        assert(kw[i].0 == k);
    }
    if has_key(kw, k) {
        let i = choose|i: int| 0 <= i < kw.len() && #[trigger] kw[i].0 == k;
        assert(values[i].0 == k);
    }
}

/// The value a fresh pin of a type holds; none for event pins.
pub fn default_pin_value(pin_type: PinType) -> (r: Option<PinValue>)
    ensures
        match r {
            Some(v) => pin_type != PinType::Event && is_default_value(pin_type, v) && value_type(v) == pin_type,
            None => pin_type == PinType::Event,
        },
{
    match pin_type {
        PinType::Float => Some(PinValue::Float(0)),
        PinType::Int => Some(PinValue::Int(0)),
        PinType::Bool => Some(PinValue::Bool(false)),
        PinType::String => Some(PinValue::String(String::new())),
        PinType::Json => Some(PinValue::Json(json_null())),
        PinType::Any => Some(PinValue::Nothing),
        PinType::Event => None,
    }
}

/// The model of a pin store: values by scoped pin (in insertion order), and the
/// fired event pins.
pub struct PinStoreView {
    pub values: Seq<((Seq<char>, Seq<char>), PinValue)>,
    pub events: Seq<(Seq<char>, Seq<char>)>,
}

/// Values of value pins and the fired event pins.
#[derive(Debug)]
pub struct PinStore {
    values: Vec<(ScopedPinId, PinValue)>,
    events: Vec<ScopedPinId>,
}

impl View for PinStore {
    type V = PinStoreView;

    closed spec fn view(&self) -> PinStoreView {
        PinStoreView {
            values: self.values@.map_values(|e: (ScopedPinId, PinValue)| (e.0@, e.1)),
            events: self.events@.map_values(|p: ScopedPinId| p@),
        }
    }
}

/// The value pins that seeding `pins` of node `node` adds to `acc`: each pin with a
/// value type whose scoped id is not there yet, in order, with its type.
pub open spec fn seed_pins(
    acc: Seq<((Seq<char>, Seq<char>), PinType)>,
    node: Seq<char>,
    pins: Seq<PinDef>,
) -> Seq<((Seq<char>, Seq<char>), PinType)>
    decreases pins.len(),
{
    if pins.len() == 0 {
        acc
    } else {
        let key = (node, pins[0].id@);
        let next = if pins[0].pin_type != PinType::Event && !has_key(acc, key) {
            acc.push((key, pins[0].pin_type))
        } else {
            acc
        };
        seed_pins(next, node, pins.drop_first())
    }
}

/// The value pins of a store seeded from `nodes`, whose types are defined in
/// `defs`: for each node in order, its inputs then its outputs.
pub open spec fn seed_nodes(
    acc: Seq<((Seq<char>, Seq<char>), PinType)>,
    nodes: Seq<(Seq<char>, NodeInstanceView)>,
    defs: Seq<NodeDefView>,
) -> Seq<((Seq<char>, Seq<char>), PinType)>
    decreases nodes.len(),
{
    if nodes.len() == 0 {
        acc
    } else {
        let n = nodes[0].1;
        match def_lookup(defs, n.node_type) {
            Some(d) => seed_nodes(
                seed_pins(seed_pins(acc, n.id, d.inputs), n.id, d.outputs),
                nodes.drop_first(),
                defs,
            ),
            None => acc,
        }
    }
}

/// Every node of `nodes` has a registered type.
pub open spec fn all_types_registered(nodes: Seq<(Seq<char>, NodeInstanceView)>, defs: Seq<NodeDefView>) -> bool {
    forall|i: int| 0 <= i < nodes.len() ==> has_def(defs, #[trigger] nodes[i].1.node_type)
}

proof fn lemma_seed_pins_distinct(acc: Seq<((Seq<char>, Seq<char>), PinType)>, node: Seq<char>, pins: Seq<PinDef>)
    requires
        keys_distinct(acc),
    ensures
        keys_distinct(seed_pins(acc, node, pins)),
    decreases pins.len(),
{
    if pins.len() > 0 {
        let key = (node, pins[0].id@);
        if pins[0].pin_type != PinType::Event && !has_key(acc, key) {
            lemma_insert_distinct(acc, key, pins[0].pin_type);
            lemma_key_index(acc, key);
            assert(keyed_insert(acc, key, pins[0].pin_type) == acc.push((key, pins[0].pin_type)));
            lemma_seed_pins_distinct(acc.push((key, pins[0].pin_type)), node, pins.drop_first());
        } else {
            lemma_seed_pins_distinct(acc, node, pins.drop_first());
        }
    }
}

impl PinStore {
    /// Distinct value pins and distinct fired events.
    pub open spec fn wf(&self) -> bool {
        &&& keys_distinct(self@.values)
        &&& self@.events.no_duplicates()
    }

    /// An empty store.
    pub fn new() -> (r: Self)
        ensures
            r@.values.len() == 0,
            r@.events.len() == 0,
            r.wf(),
    {
        PinStore { values: Vec::new(), events: Vec::new() }
    }

    /// Seeds the value pins of `pins` (of node `node`) with their defaults.
    fn seed(&mut self, node: &NodeId, pins: &Vec<PinDef>)
        requires
            old(self).wf(),
            forall|j: int| 0 <= j < old(self)@.values.len() ==> is_default_value(
                value_type(#[trigger] old(self)@.values[j].1),
                old(self)@.values[j].1,
            ),
        ensures
            final(self).wf(),
            final(self)@.events == old(self)@.events,
            keys_with_types(final(self)@.values) == seed_pins(keys_with_types(old(self)@.values), node@, pins@),
            forall|j: int| 0 <= j < final(self)@.values.len() ==> is_default_value(
                value_type(#[trigger] final(self)@.values[j].1),
                final(self)@.values[j].1,
            ),
    {
        let ghost start = self@;
        let mut i: usize = 0;
        assert(pins@.skip(0) =~= pins@);
        while i < pins.len()
            invariant
                i <= pins@.len(),
                self.wf(),
                self@.events == start.events,
                seed_pins(keys_with_types(start.values), node@, pins@)
                    == seed_pins(keys_with_types(self@.values), node@, pins@.skip(i as int)),
                forall|j: int| 0 <= j < self@.values.len() ==> is_default_value(
                    value_type(#[trigger] self@.values[j].1),
                    self@.values[j].1,
                ),
            decreases pins@.len() - i,
        {
            let pin = &pins[i];
            let key = ScopedPinId::new(node.clone(), pin.id.clone());
            let ghost before = self@.values;
            assert(pins@.skip(i as int).drop_first() =~= pins@.skip(i + 1));
            assert(pins@.skip(i as int)[0] == pins@[i as int]);
            proof {
                lemma_keys_with_types_has(before, key@);
            }
            match default_pin_value(pin.pin_type) {
                Some(v) => {
                    if !self.contains_value_pin(&key) {
                        proof {
                            lemma_key_index(before, key@);
                            lemma_insert_distinct(before, key@, v);
                        }
                        let ghost kv = key@;
                        self.values.push((key, v));
                        proof {
                            assert(self@.values =~= before.push((kv, v)));
                            assert(keys_with_types(self@.values) =~= keys_with_types(before).push((kv, pins@[i as int].pin_type)));
                        }
                    }
                },
                None => {},
            }
            i = i + 1;
        }
        proof {
            assert(pins@.skip(pins@.len() as int).len() == 0);
            assert(pins@.skip(0) =~= pins@);
        }
    }

    /// The initial store of a graph: every value pin of every node, inputs then
    /// outputs, holding its type's default. Refused when a node's type is not
    /// registered.
    pub fn from_graph(graph: &Graph, registry: &NodeRegistry) -> (r: AqueductResult<Self>)
        ensures
            !all_types_registered(graph@.nodes, registry@) ==> (r matches Err(e)
                && e.spec_kind() == ErrorKind::Storage
                && e.spec_code()@ == "PIN_STORE_NODE_DEF_MISSING"@),
            forall|i: int| 0 <= i < graph@.nodes.len() && !has_def(registry@, #[trigger] graph@.nodes[i].1.node_type)
                && (forall|j: int| 0 <= j < i ==> has_def(registry@, #[trigger] graph@.nodes[j].1.node_type))
                ==> (r matches Err(e)
                && e.spec_message() == "ノード型 "@ + graph@.nodes[i].1.node_type + " の定義が見つかりません"@),
            all_types_registered(graph@.nodes, registry@) ==> (r matches Ok(s)
                && s.wf()
                && s@.events.len() == 0
                && keys_with_types(s@.values) == seed_nodes(Seq::empty(), graph@.nodes, registry@)
                && forall|i: int| 0 <= i < s@.values.len() ==> is_default_value(
                    value_type(#[trigger] s@.values[i].1),
                    s@.values[i].1,
                )),
    {
        let mut store = PinStore::new();
        let nodes = graph.nodes.as_slice();
        let mut i: usize = 0;
        assert(graph@.nodes.skip(0) =~= graph@.nodes);
        assert(keys_with_types(store@.values) =~= Seq::empty());
        while i < nodes.len()
            invariant
                i <= nodes@.len(),
                nodes@.len() == graph@.nodes.len(),
                forall|j: int| 0 <= j < nodes@.len() ==> (#[trigger] nodes@[j]).0@ == graph@.nodes[j].0
                    && nodes@[j].1@ == graph@.nodes[j].1,
                store.wf(),
                store@.events.len() == 0,
                forall|j: int| 0 <= j < i ==> has_def(registry@, (#[trigger] graph@.nodes[j]).1.node_type),
                all_types_registered(graph@.nodes, registry@) ==> seed_nodes(Seq::empty(), graph@.nodes, registry@)
                    == seed_nodes(keys_with_types(store@.values), graph@.nodes.skip(i as int), registry@),
                forall|j: int| 0 <= j < store@.values.len() ==> is_default_value(
                    value_type(#[trigger] store@.values[j].1),
                    store@.values[j].1,
                ),
            decreases nodes@.len() - i,
        {
            let node = &nodes[i].1;
            let def = match registry.node_def(node.node_type.as_str()) {
                Some(d) => d,
                None => {
                    proof {
                        assert(!has_def(registry@, graph@.nodes[i as int].1.node_type));
                        assert forall|a: int| 0 <= a < graph@.nodes.len() && !has_def(registry@, #[trigger] graph@.nodes[a].1.node_type)
                            && (forall|j: int| 0 <= j < a ==> has_def(registry@, #[trigger] graph@.nodes[j].1.node_type))
                            implies a == i by {
                            if a < i {
                                assert(has_def(registry@, graph@.nodes[a].1.node_type));
                            } else if a > i {
                                assert(has_def(registry@, graph@.nodes[i as int].1.node_type));
                            }
                        }
                    }
                    return Err(AqueductError::new(
                        ErrorKind::Storage,
                        "PIN_STORE_NODE_DEF_MISSING",
                        concat3("ノード型 ", node.node_type.as_str(), " の定義が見つかりません"),
                    ));
                },
            };
            let ghost rest = graph@.nodes.skip(i as int);
            proof {
                assert(rest[0] == graph@.nodes[i as int]);
                assert(rest.drop_first() =~= graph@.nodes.skip(i + 1));
            }
            store.seed(&node.id, &def.inputs);
            store.seed(&node.id, &def.outputs);
            i = i + 1;
        }
        proof {
            assert(graph@.nodes.skip(nodes@.len() as int).len() == 0);
            assert(graph@.nodes.skip(0) =~= graph@.nodes);
            if !all_types_registered(graph@.nodes, registry@) {
                let j = choose|j: int| 0 <= j < graph@.nodes.len() && !has_def(registry@, #[trigger] graph@.nodes[j].1.node_type);
                assert(has_def(registry@, graph@.nodes[j].1.node_type));
            }
        }
        Ok(store)
    }

    /// The value of `pin_id`.
    pub fn get_value(&self, pin_id: &ScopedPinId) -> (r: Option<&PinValue>)
        ensures
            match r {
                Some(v) => lookup(self@.values, pin_id@) == Some(*v),
                None => !has_key(self@.values, pin_id@),
            },
    {
        match self.find(pin_id) {
            Some(i) => Some(&self.values[i].1),
            None => None,
        }
    }

    fn find(&self, pin_id: &ScopedPinId) -> (r: Option<usize>)
        ensures
            r matches Some(i) ==> i == key_index(self@.values, pin_id@) && i < self@.values.len(),
            r is None <==> !has_key(self@.values, pin_id@),
    {
        let mut i: usize = 0;
        while i < self.values.len()
            invariant
                i <= self@.values.len(),
                forall|j: int| 0 <= j < i ==> self@.values[j].0 != pin_id@,
            decreases self@.values.len() - i,
        {
            assert(self@.values[i as int].0 == self.values@[i as int].0@);
            if self.values[i].0 == *pin_id {
                proof {
                    lemma_key_index(self@.values, pin_id@);
                }
                return Some(i);
            }
            i = i + 1;
        }
        proof {
            lemma_key_index(self@.values, pin_id@);
        }
        None
    }

    /// Whether `pin_id` holds a value.
    pub fn contains_value_pin(&self, pin_id: &ScopedPinId) -> (r: bool)
        ensures
            r == has_key(self@.values, pin_id@),
    {
        self.find(pin_id).is_some()
    }

    /// Whether the event pin `pin_id` fired in this tick.
    pub fn is_event_fired(&self, pin_id: &ScopedPinId) -> (r: bool)
        ensures
            r == self@.events.contains(pin_id@),
    {
        let mut i: usize = 0;
        while i < self.events.len()
            invariant
                i <= self@.events.len(),
                forall|j: int| 0 <= j < i ==> self@.events[j] != pin_id@,
            decreases self@.events.len() - i,
        {
            assert(self@.events[i as int] == self.events@[i as int]@);
            if self.events[i] == *pin_id {
                return true;
            }
            i = i + 1;
        }
        false
    }

    /// Stores `value` on `pin_id`.
    pub fn set_value(&mut self, pin_id: ScopedPinId, value: PinValue)
        requires
            old(self).wf(),
        ensures
            final(self).wf(),
            final(self)@.values == keyed_insert(old(self)@.values, pin_id@, value),
            final(self)@.events == old(self)@.events,
    {
        proof {
            lemma_key_index(self@.values, pin_id@);
            lemma_insert_distinct(self@.values, pin_id@, value);
        }
        let ghost kv = pin_id@;
        match self.find(&pin_id) {
            Some(i) => {
                self.values.set(i, (pin_id, value));
            },
            None => {
                self.values.push((pin_id, value));
            },
        }
        assert(self@.values =~= keyed_insert(old(self)@.values, kv, value));
        assert(self@.events =~= old(self)@.events);
    }

    /// Stores `value` on `pin_id` if it already holds a value.
    pub fn set_value_if_present(&mut self, pin_id: &ScopedPinId, value: PinValue)
        requires
            old(self).wf(),
        ensures
            final(self).wf(),
            final(self)@.values == if has_key(old(self)@.values, pin_id@) {
                keyed_insert(old(self)@.values, pin_id@, value)
            } else {
                old(self)@.values
            },
            final(self)@.events == old(self)@.events,
    {
        proof {
            lemma_key_index(self@.values, pin_id@);
            lemma_insert_distinct(self@.values, pin_id@, value);
        }
        match self.find(pin_id) {
            Some(i) => {
                let key = self.values[i].0.clone();
                self.values.set(i, (key, value));
                assert(self@.values =~= keyed_insert(old(self)@.values, pin_id@, value));
            },
            None => {},
        }
        assert(self@.events =~= old(self)@.events);
    }

    /// Marks the event pin `pin_id` as fired.
    pub fn fire_event(&mut self, pin_id: ScopedPinId)
        requires
            old(self).wf(),
        ensures
            final(self).wf(),
            final(self)@.values == old(self)@.values,
            final(self)@.events == if old(self)@.events.contains(pin_id@) {
                old(self)@.events
            } else {
                old(self)@.events.push(pin_id@)
            },
    {
        if !self.is_event_fired(&pin_id) {
            let ghost kv = pin_id@;
            self.events.push(pin_id);
            assert(self@.events =~= old(self)@.events.push(kv));
        }
        assert(self@.values =~= old(self)@.values);
    }

    /// Clears the fired events, at the end of a tick.
    pub fn clear_events(&mut self)
        requires
            old(self).wf(),
        ensures
            final(self).wf(),
            final(self)@.values == old(self)@.values,
            final(self)@.events.len() == 0,
    {
        self.events.clear();
        assert(self@.values =~= old(self)@.values);
    }

    /// The value pins and their values, in order.
    pub fn value_entries(&self) -> (r: &[(ScopedPinId, PinValue)])
        ensures
            r@.len() == self@.values.len(),
            forall|i: int| 0 <= i < r@.len() ==> (#[trigger] r@[i]).0@ == self@.values[i].0 && r@[i].1 == self@.values[i].1,
    {
        self.values.as_slice()
    }

    /// A copy of the store.
    pub fn duplicate(&self) -> (r: Self)
        ensures
            r@ == self@,
    {
        let mut values: Vec<(ScopedPinId, PinValue)> = Vec::new();
        let mut i: usize = 0;
        while i < self.values.len()
            invariant
                i <= self.values@.len(),
                values@ == self.values@.take(i as int),
            decreases self.values@.len() - i,
        {
            let k = self.values[i].0.clone();
            let v = self.values[i].1.clone();
            values.push((k, v));
            assert(self.values@.take(i + 1) =~= self.values@.take(i as int).push(self.values@[i as int]));
            i = i + 1;
        }
        assert(self.values@.take(self.values@.len() as int) =~= self.values@);
        let events = self.events.clone();
        assert(events@ =~= self.events@);
        PinStore { values, events }
    }
}

impl Clone for PinStore {
    fn clone(&self) -> (r: Self)
        ensures
            r@ == self@,
    {
        self.duplicate()
    }
}

impl Default for PinStore {
    fn default() -> (r: Self)
        ensures
            r@.values.len() == 0,
            r@.events.len() == 0,
            r.wf(),
    {
        PinStore::new()
    }
}

/// A value stored on a pin is read back from it, and every other pin keeps its
/// value.
pub proof fn lemma_read_after_write(
    values: Seq<((Seq<char>, Seq<char>), PinValue)>,
    pin: (Seq<char>, Seq<char>),
    value: PinValue,
)
    requires
        keys_distinct(values),
    ensures
        lookup(keyed_insert(values, pin, value), pin) == Some(value),
        forall|q: (Seq<char>, Seq<char>)| q != pin ==> #[trigger] lookup(keyed_insert(values, pin, value), q) == lookup(values, q),
{
    lemma_insert_distinct(values, pin, value);
}

/// An event pin that fires is seen as fired until the events are cleared.
pub proof fn lemma_fired_event_is_seen(events: Seq<(Seq<char>, Seq<char>)>, pin: (Seq<char>, Seq<char>))
    ensures
        (if events.contains(pin) {
            events
        } else {
            events.push(pin)
        }).contains(pin),
{
    if !events.contains(pin) {
        assert(events.push(pin)[events.len() as int] == pin);
    }
}

} // verus!
