//! Ordered maps with distinct keys: node instances by id, properties by key.

use vstd::prelude::*;

use crate::ids::{text_equal, NodeId};
use crate::keyed::{has_key, key_index, keyed_insert, keyed_remove, keys_distinct, lemma_insert_distinct, lemma_key_index, lemma_remove_distinct, lookup};
use crate::model::{NodeInstance, NodeInstanceView};

verus! {

/// Properties of a node instance: JSON values by key, in insertion order.
#[derive(Debug, PartialEq)]
pub struct PropertyMap {
    entries: Vec<(String, serde_json::Value)>,
}

impl View for PropertyMap {
    type V = Seq<(Seq<char>, serde_json::Value)>;

    closed spec fn view(&self) -> Seq<(Seq<char>, serde_json::Value)> {
        self.entries@.map_values(|e: (String, serde_json::Value)| (e.0@, e.1))
    }
}

impl PropertyMap {
    /// No two entries share a key.
    pub open spec fn wf(&self) -> bool {
        keys_distinct(self@)
    }

    /// An empty map.
    pub fn new() -> (r: Self)
        ensures
            r@ == Seq::<(Seq<char>, serde_json::Value)>::empty(),
            r.wf(),
    {
        PropertyMap { entries: Vec::new() }
    }

    /// The number of entries.
    pub fn len(&self) -> (r: usize)
        ensures
            r == self@.len(),
    {
        self.entries.len()
    }

    /// The entries, in order.
    pub fn as_slice(&self) -> (r: &[(String, serde_json::Value)])
        ensures
            r@.len() == self@.len(),
            forall|i: int| 0 <= i < r@.len() ==> (#[trigger] r@[i]).0@ == self@[i].0 && r@[i].1 == self@[i].1,
    {
        self.entries.as_slice()
    }

    fn find(&self, key: &str) -> (r: Option<usize>)
        ensures
            r matches Some(i) ==> i == key_index(self@, key@) && i < self@.len(),
            r is None <==> !has_key(self@, key@),
    {
        let mut i: usize = 0;
        while i < self.entries.len()
            invariant
                i <= self@.len(),
                forall|j: int| 0 <= j < i ==> self@[j].0 != key@,
            decreases self@.len() - i,
        {
            if text_equal(self.entries[i].0.as_str(), key) {
                assert(self@[i as int].0 == self.entries@[i as int].0@);
                proof {
                    lemma_key_index(self@, key@);
                }
                return Some(i);
            }
            i = i + 1;
        }
        proof {
            lemma_key_index(self@, key@);
        }
        None
    }

    /// Whether some entry has key `key`.
    pub fn contains_key(&self, key: &str) -> (r: bool)
        ensures
            r == has_key(self@, key@),
    {
        self.find(key).is_some()
    }

    /// The value under `key`.
    pub fn get(&self, key: &str) -> (r: Option<&serde_json::Value>)
        ensures
            match r {
                Some(v) => lookup(self@, key@) == Some(*v),
                None => !has_key(self@, key@),
            },
    {
        match self.find(key) {
            Some(i) => Some(&self.entries[i].1),
            None => None,
        }
    }

    /// Stores `value` under `key`, replacing the value there if any.
    pub fn insert(&mut self, key: String, value: serde_json::Value)
        ensures
            final(self)@ == keyed_insert(old(self)@, key@, value),
            old(self).wf() ==> final(self).wf(),
    {
        proof {
            lemma_key_index(self@, key@);
            if self.wf() {
                lemma_insert_distinct(self@, key@, value);
            }
        }
        let ghost kv = key@;
        match self.find(key.as_str()) {
            Some(i) => {
                self.entries.set(i, (key, value));
                assert(self@ =~= keyed_insert(old(self)@, kv, value));
            },
            None => {
                self.entries.push((key, value));
                assert(self@ =~= keyed_insert(old(self)@, kv, value));
            },
        }
    }

    /// A copy of the map.
    pub fn duplicate(&self) -> (r: Self)
        ensures
            r@ == self@,
    {
        let mut entries: Vec<(String, serde_json::Value)> = Vec::new();
        let mut i: usize = 0;
        while i < self.entries.len()
            invariant
                i <= self.entries@.len(),
                entries@ == self.entries@.take(i as int),
            decreases self.entries@.len() - i,
        {
            let k = self.entries[i].0.clone();
            let v = self.entries[i].1.clone();
            entries.push((k, v));
            proof {
                assert(self.entries@.take(i + 1) =~= self.entries@.take(i as int).push(self.entries@[i as int]));
            }
            i = i + 1;
        }
        assert(self.entries@.take(self.entries@.len() as int) =~= self.entries@);
        PropertyMap { entries }
    }
}

impl Clone for PropertyMap {
    fn clone(&self) -> (r: Self)
        ensures
            r@ == self@,
    {
        self.duplicate()
    }
}

/// Node instances by id, in insertion order.
#[derive(Debug, PartialEq)]
pub struct NodeMap {
    entries: Vec<(NodeId, NodeInstance)>,
}

/// The views of node entries.
pub open spec fn node_entries(s: Seq<(NodeId, NodeInstance)>) -> Seq<(Seq<char>, NodeInstanceView)> {
    s.map_values(|e: (NodeId, NodeInstance)| (e.0@, e.1@))
}

impl View for NodeMap {
    type V = Seq<(Seq<char>, NodeInstanceView)>;

    closed spec fn view(&self) -> Seq<(Seq<char>, NodeInstanceView)> {
        node_entries(self.entries@)
    }
}

/// The position of the entry with key `id` in `entries`.
fn find_node_entry(entries: &Vec<(NodeId, NodeInstance)>, id: &NodeId) -> (r: Option<usize>)
    ensures
        r matches Some(i) ==> i == key_index(node_entries(entries@), id@) && i < entries@.len(),
        r is None <==> !has_key(node_entries(entries@), id@),
{
    let ghost es = node_entries(entries@);
    let mut i: usize = 0;
    while i < entries.len()
        invariant
            i <= es.len(),
            es == node_entries(entries@),
            forall|j: int| 0 <= j < i ==> es[j].0 != id@,
        decreases es.len() - i,
    {
        assert(es[i as int].0 == entries@[i as int].0@);
        if entries[i].0 == *id {
            proof {
                lemma_key_index(es, id@);
            }
            return Some(i);
        }
        i = i + 1;
    }
    proof {
        lemma_key_index(es, id@);
    }
    None
}

impl NodeMap {
    /// No two entries share an id; every map keeps this.
    #[verifier::type_invariant]
    pub open spec fn wf(&self) -> bool {
        keys_distinct(self@)
    }

    /// An empty map.
    pub fn new() -> (r: Self)
        ensures
            r@ == Seq::<(Seq<char>, NodeInstanceView)>::empty(),
    {
        let r = NodeMap { entries: Vec::new() };
        assert(r@ =~= Seq::<(Seq<char>, NodeInstanceView)>::empty());
        r
    }

    /// The number of nodes.
    pub fn len(&self) -> (r: usize)
        ensures
            r == self@.len(),
    {
        self.entries.len()
    }

    /// The entries, in order.
    pub fn as_slice(&self) -> (r: &[(NodeId, NodeInstance)])
        ensures
            r@.len() == self@.len(),
            forall|i: int| 0 <= i < r@.len() ==> (#[trigger] r@[i]).0@ == self@[i].0 && r@[i].1@ == self@[i].1,
    {
        self.entries.as_slice()
    }

    /// The position of the entry with key `id`.
    pub fn find(&self, id: &NodeId) -> (r: Option<usize>)
        ensures
            r matches Some(i) ==> i == key_index(self@, id@) && i < self@.len(),
            r is None <==> !has_key(self@, id@),
    {
        find_node_entry(&self.entries, id)
    }

    /// Whether some node has key `id`.
    pub fn contains_key(&self, id: &NodeId) -> (r: bool)
        ensures
            r == has_key(self@, id@),
    {
        self.find(id).is_some()
    }

    /// The node under `id`.
    pub fn get(&self, id: &NodeId) -> (r: Option<&NodeInstance>)
        ensures
            match r {
                Some(n) => lookup(self@, id@) == Some(n@),
                None => !has_key(self@, id@),
            },
    {
        match self.find(id) {
            Some(i) => {
                proof {
                    lemma_key_index(self@, id@);
                }
                Some(&self.entries[i].1)
            },
            None => None,
        }
    }

    /// Stores `node` under `id`, replacing the node there if any.
    pub fn insert(&mut self, id: NodeId, node: NodeInstance)
        ensures
            final(self)@ == keyed_insert(old(self)@, id@, node@),
    {
        proof {
            use_type_invariant(&*self);
            lemma_key_index(self@, id@);
            lemma_insert_distinct(self@, id@, node@);
        }
        let ghost before = self@;
        let ghost kv = id@;
        let ghost nv = node@;
        let mut entries: Vec<(NodeId, NodeInstance)> = Vec::new();
        std::mem::swap(&mut entries, &mut self.entries);
        match find_node_entry(&entries, &id) {
            Some(i) => {
                entries.set(i, (id, node));
            },
            None => {
                entries.push((id, node));
            },
        }
        assert(node_entries(entries@) =~= keyed_insert(before, kv, nv));
        self.entries = entries;
    }

    /// Removes the node under `id` and returns it.
    pub fn remove(&mut self, id: &NodeId) -> (r: Option<NodeInstance>)
        ensures
            final(self)@ == keyed_remove(old(self)@, id@),
            match r {
                Some(n) => lookup(old(self)@, id@) == Some(n@),
                None => !has_key(old(self)@, id@),
            },
    {
        proof {
            use_type_invariant(&*self);
            lemma_key_index(self@, id@);
            lemma_remove_distinct(self@, id@);
        }
        let ghost before = self@;
        let mut entries: Vec<(NodeId, NodeInstance)> = Vec::new();
        std::mem::swap(&mut entries, &mut self.entries);
        match find_node_entry(&entries, id) {
            Some(i) => {
                let (_k, node) = entries.remove(i);
                assert(node_entries(entries@) =~= keyed_remove(before, id@));
                self.entries = entries;
                Some(node)
            },
            None => {
                self.entries = entries;
                None
            },
        }
    }

    /// Sets property `key` of the node under `id` to `value`; false when there is no
    /// such node.
    pub fn set_property(&mut self, id: &NodeId, key: String, value: serde_json::Value) -> (r: bool)
        ensures
            r == has_key(old(self)@, id@),
            final(self)@ == node_property_set(old(self)@, id@, key@, value),
    {
        proof {
            use_type_invariant(&*self);
        }
        let ghost before = self@;
        let mut entries: Vec<(NodeId, NodeInstance)> = Vec::new();
        std::mem::swap(&mut entries, &mut self.entries);
        match find_node_entry(&entries, id) {
            Some(i) => {
                proof {
                    lemma_key_index(before, id@);
                }
                let mut node = entries[i].1.clone();
                let k = entries[i].0.clone();
                node.properties.insert(key, value);
                let ghost nv = node@;
                entries.set(i, (k, node));
                assert(node_entries(entries@) =~= before.update(i as int, (id@, nv)));
                assert(forall|j: int| 0 <= j < before.len() ==> #[trigger] node_entries(entries@)[j].0 == before[j].0);
                self.entries = entries;
                true
            },
            None => {
                self.entries = entries;
                false
            },
        }
    }

    /// A copy of the map.
    pub fn duplicate(&self) -> (r: Self)
        ensures
            r@ == self@,
    {
        proof {
            use_type_invariant(self);
        }
        let mut entries: Vec<(NodeId, NodeInstance)> = Vec::new();
        let mut i: usize = 0;
        while i < self.entries.len()
            invariant
                i <= self.entries@.len(),
                entries@.len() == i,
                forall|j: int| 0 <= j < i ==> (#[trigger] entries@[j]).0 == self.entries@[j].0 && entries@[j].1@ == self.entries@[j].1@,
            decreases self.entries@.len() - i,
        {
            let k = self.entries[i].0.clone();
            let v = self.entries[i].1.clone();
            entries.push((k, v));
            i = i + 1;
        }
        assert(node_entries(entries@) =~= self@);
        NodeMap { entries }
    }
}

/// `nodes` after setting property `key` of the node under `id` to `value`.
pub open spec fn node_property_set(
    nodes: Seq<(Seq<char>, NodeInstanceView)>,
    id: Seq<char>,
    key: Seq<char>,
    value: serde_json::Value,
) -> Seq<(Seq<char>, NodeInstanceView)> {
    if has_key(nodes, id) {
        let i = key_index(nodes, id);
        let n = nodes[i].1;
        nodes.update(i, (id, NodeInstanceView { properties: keyed_insert(n.properties, key, value), ..n }))
    } else {
        nodes
    }
}

impl Clone for NodeMap {
    fn clone(&self) -> (r: Self)
        ensures
            r@ == self@,
    {
        self.duplicate()
    }
}

} // verus!
