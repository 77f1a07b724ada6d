//! The registry of node types: each type's factory and definition, by type name.

use vstd::prelude::*;

use crate::error::{concat2, AqueductError, AqueductResult, ErrorKind};
use crate::ids::{lemma_text_lt_asymmetric, lemma_text_lt_irreflexive, lemma_text_lt_total, lemma_text_lt_transitive, text_equal, text_less, text_lt};
use crate::model::{NodeDef, NodeDefView};
use crate::node::NodeFactory;
use crate::text::{trim_text, trimmed};

verus! {

/// Some definition in `defs` has type name `name`.
pub open spec fn has_def(defs: Seq<NodeDefView>, name: Seq<char>) -> bool {
    exists|i: int| 0 <= i < defs.len() && #[trigger] defs[i].node_type == name
}

/// The position of the first definition in `defs` named `name` (`defs.len()` if none).
pub open spec fn def_index(defs: Seq<NodeDefView>, name: Seq<char>) -> int
    decreases defs.len(),
{
    if defs.len() == 0 {
        0
    } else if defs[0].node_type == name {
        0
    } else {
        1 + def_index(defs.drop_first(), name)
    }
}

/// The definition named `name` in `defs`, if any.
pub open spec fn def_lookup(defs: Seq<NodeDefView>, name: Seq<char>) -> Option<NodeDefView> {
    if has_def(defs, name) {
        Some(defs[def_index(defs, name)])
    } else {
        None
    }
}

/// No two definitions share a type name.
pub open spec fn names_distinct(defs: Seq<NodeDefView>) -> bool {
    forall|i: int, j: int| 0 <= i < defs.len() && 0 <= j < defs.len() && i != j ==> defs[i].node_type != defs[j].node_type
}

pub proof fn lemma_def_index(defs: Seq<NodeDefView>, name: Seq<char>)
    ensures
        0 <= def_index(defs, name) <= defs.len(),
        def_index(defs, name) < defs.len() <==> has_def(defs, name),
        def_index(defs, name) < defs.len() ==> defs[def_index(defs, name)].node_type == name,
        forall|j: int| 0 <= j < def_index(defs, name) ==> defs[j].node_type != name,
    decreases defs.len(),
{
    if defs.len() > 0 && defs[0].node_type != name {
        let t = defs.drop_first();
        lemma_def_index(t, name);
        if has_def(defs, name) {
            let i = choose|i: int| 0 <= i < defs.len() && #[trigger] defs[i].node_type == name;
            assert(t[i - 1].node_type == name);
        }
        if has_def(t, name) {
            let i = choose|i: int| 0 <= i < t.len() && #[trigger] t[i].node_type == name;
            assert(defs[i + 1].node_type == name);
        }
        assert forall|j: int| 0 <= j < def_index(defs, name) implies defs[j].node_type != name by {
            if j > 0 {
                assert(defs[j] == t[j - 1]);
            }
        }
    } else if defs.len() > 0 {
        assert(defs[0].node_type == name);
    }
}

/// `defs` sorted by type name, each exactly once: the order of `list_node_defs`.
pub open spec fn sorted_by_name(defs: Seq<NodeDefView>) -> bool {
    forall|i: int, j: int| 0 <= i < j < defs.len() ==> text_lt(defs[i].node_type, defs[j].node_type)
}

/// The models of a sequence of definitions.
pub open spec fn def_views(s: Seq<NodeDef>) -> Seq<NodeDefView> {
    s.map_values(|d: NodeDef| d@)
}

proof fn lemma_sorted_insert(bs: Seq<NodeDefView>, pos: int, dv: NodeDefView)
    requires
        sorted_by_name(bs),
        0 <= pos <= bs.len(),
        forall|q: int| 0 <= q < pos ==> !text_lt(dv.node_type, #[trigger] bs[q].node_type),
        pos < bs.len() ==> text_lt(dv.node_type, bs[pos].node_type),
        forall|q: int| 0 <= q < bs.len() ==> #[trigger] bs[q].node_type != dv.node_type,
    ensures
        sorted_by_name(bs.insert(pos, dv)),
{
    let vs = bs.insert(pos, dv);
    assert forall|a: int, b: int| 0 <= a < b < vs.len() implies text_lt(vs[a].node_type, vs[b].node_type) by {
        if a < pos && b < pos {
            assert(vs[a] == bs[a] && vs[b] == bs[b]);
        } else if a < pos && b == pos {
            assert(vs[a] == bs[a]);
            assert(bs[a].node_type != dv.node_type);
            lemma_text_lt_total(dv.node_type, bs[a].node_type);
        } else if a < pos && b > pos {
            assert(vs[a] == bs[a] && vs[b] == bs[b - 1]);
        } else if a == pos {
            assert(vs[b] == bs[b - 1]);
            if b - 1 > pos {
                lemma_text_lt_transitive(dv.node_type, bs[pos].node_type, bs[b - 1].node_type);
            }
        } else {
            assert(vs[a] == bs[a - 1] && vs[b] == bs[b - 1]);
        }
    }
}

proof fn lemma_insert_contains(bs: Seq<NodeDefView>, pos: int, dv: NodeDefView)
    requires
        0 <= pos <= bs.len(),
    ensures
        forall|x: NodeDefView| bs.insert(pos, dv).contains(x) <==> (bs.contains(x) || x == dv),
{
    let vs = bs.insert(pos, dv);
    assert forall|x: NodeDefView| vs.contains(x) <==> (bs.contains(x) || x == dv) by {
        if vs.contains(x) {
            let j = choose|j: int| 0 <= j < vs.len() && vs[j] == x;
            if j < pos {
                assert(bs[j] == x);
            } else if j > pos {
                assert(bs[j - 1] == x);
            }
        }
        if bs.contains(x) {
            let j = choose|j: int| 0 <= j < bs.len() && bs[j] == x;
            if j < pos {
                assert(vs[j] == x);
            } else {
                assert(vs[j + 1] == x);
            }
        }
        if x == dv {
            assert(vs[pos] == x);
        }
    }
}

/// The error code and message with which a definition of type `name` is refused
/// by a registry holding `defs`, if it is: a blank type name, or a type name
/// already registered.
pub open spec fn registration_error(defs: Seq<NodeDefView>, name: Seq<char>) -> Option<(Seq<char>, Seq<char>)> {
    if trimmed(name).len() == 0 {
        Some(("REGISTRY_EMPTY_TYPE_NAME"@, "ノード型名は空文字列を許可しません"@))
    } else if has_def(defs, name) {
        Some(("REGISTRY_DUPLICATE_TYPE"@, "既に登録済みのノード型です: "@ + name))
    } else {
        None
    }
}

/// `after` is `before` with definitions of the types `names` appended, in order.
pub open spec fn names_registered(before: Seq<NodeDefView>, after: Seq<NodeDefView>, names: Seq<Seq<char>>) -> bool {
    &&& after.len() == before.len() + names.len()
    &&& after.take(before.len() as int) == before
    &&& forall|i: int| 0 <= i < names.len() ==> #[trigger] after[before.len() + i].node_type == names[i]
}

/// `listed` holds the definitions `defs`, each once, sorted by type name.
pub open spec fn lists_defs(listed: Seq<NodeDefView>, defs: Seq<NodeDefView>) -> bool {
    &&& listed.len() == defs.len()
    &&& sorted_by_name(listed)
    &&& forall|i: int| 0 <= i < defs.len() ==> listed.contains(#[trigger] defs[i])
    &&& forall|j: int| 0 <= j < listed.len() ==> defs.contains(#[trigger] listed[j])
}

/// The registered node types: factories and their definitions, in registration order.
pub struct NodeRegistry {
    factories: Vec<Box<dyn NodeFactory>>,
    defs: Vec<NodeDef>,
}

impl View for NodeRegistry {
    type V = Seq<NodeDefView>;

    closed spec fn view(&self) -> Seq<NodeDefView> {
        self.defs@.map_values(|d: NodeDef| d@)
    }
}

impl NodeRegistry {
    /// One factory per definition, and distinct type names.
    pub closed spec fn wf(&self) -> bool {
        &&& self.factories@.len() == self.defs@.len()
        &&& names_distinct(self@)
    }

    /// The registered factories, in the order of `self@`.
    pub closed spec fn factories(&self) -> Seq<Box<dyn NodeFactory>> {
        self.factories@
    }

    /// An empty registry.
    pub fn new() -> (r: Self)
        ensures
            r@ == Seq::<NodeDefView>::empty(),
            r.wf(),
    {
        NodeRegistry { factories: Vec::new(), defs: Vec::new() }
    }

    fn find(&self, node_type: &str) -> (r: Option<usize>)
        ensures
            r matches Some(i) ==> i == def_index(self@, node_type@) && i < self@.len(),
            r is None <==> !has_def(self@, node_type@),
    {
        let mut i: usize = 0;
        while i < self.defs.len()
            invariant
                i <= self@.len(),
                forall|j: int| 0 <= j < i ==> self@[j].node_type != node_type@,
            decreases self@.len() - i,
        {
            assert(self@[i as int] == self.defs@[i as int]@);
            if text_equal(self.defs[i].node_type.as_str(), node_type) {
                proof {
                    lemma_def_index(self@, node_type@);
                }
                return Some(i);
            }
            i = i + 1;
        }
        proof {
            lemma_def_index(self@, node_type@);
        }
        None
    }

    /// Registers `factory` under the definition it reports.
    pub fn register(&mut self, factory: Box<dyn NodeFactory>) -> (r: AqueductResult<()>)
        requires
            old(self).wf(),
        ensures
            final(self).wf(),
            r is Ok ==> final(self)@.len() == old(self)@.len() + 1
                && final(self)@.take(old(self)@.len() as int) == old(self)@
                && trimmed(final(self)@.last().node_type).len() != 0
                && !has_def(old(self)@, final(self)@.last().node_type)
                && factory.defines(final(self)@.last()),
            r is Ok ==> final(self).factories() == old(self).factories().push(factory),
            r is Err ==> final(self)@ == old(self)@ && final(self).factories() == old(self).factories(),
            r matches Err(e) ==> e.spec_kind() == ErrorKind::Registry && exists|d: NodeDefView| #[trigger] factory.defines(d)
                && registration_error(old(self)@, d.node_type) == Some((e.spec_code()@, e.spec_message())),
            (forall|d: NodeDefView| #[trigger] factory.defines(d) ==> registration_error(old(self)@, d.node_type) is None) ==> r is Ok,
    {
        let def = factory.node_def();
        let trimmed_name = trim_text(def.node_type.as_str());
        if trimmed_name.is_empty() {
            return Err(AqueductError::new(
                ErrorKind::Registry,
                "REGISTRY_EMPTY_TYPE_NAME",
                String::from_str("ノード型名は空文字列を許可しません"),
            ));
        }
        if self.find(def.node_type.as_str()).is_some() {
            return Err(AqueductError::new(
                ErrorKind::Registry,
                "REGISTRY_DUPLICATE_TYPE",
                concat2("既に登録済みのノード型です: ", def.node_type.as_str()),
            ));
        }
        let ghost old_factories = self.factories@;
        let ghost dv = def@;
        self.defs.push(def);
        self.factories.push(factory);
        proof {
            vstd::seq::axiom_seq_push_len(old_factories, factory);
            assert(self.factories@ == old_factories.push(factory));
            assert(self@ =~= old(self)@.push(dv));
            assert(names_distinct(self@)) by {
                assert forall|i: int, j: int|
                    0 <= i < self@.len() && 0 <= j < self@.len() && i != j implies self@[i].node_type
                    != self@[j].node_type by {
                    let n = old(self)@.len() as int;
                    if i == n {
                        assert(self@[j] == old(self)@[j]);
                    } else if j == n {
                        assert(self@[i] == old(self)@[i]);
                    } else {
                        assert(self@[i] == old(self)@[i]);
                        assert(self@[j] == old(self)@[j]);
                    }
                }
            }
        }
        Ok(())
    }

    /// The factory registered under `node_type`.
    pub fn get(&self, node_type: &str) -> (r: Option<&Box<dyn NodeFactory>>)
        requires
            self.wf(),
        ensures
            r is Some <==> has_def(self@, node_type@),
            r matches Some(f) ==> *f == self.factories()[def_index(self@, node_type@)],
    {
        match self.find(node_type) {
            Some(i) => Some(&self.factories[i]),
            None => None,
        }
    }

    /// The factory at position `index` (of `self@`).
    pub fn factory_at(&self, index: usize) -> (r: &Box<dyn NodeFactory>)
        requires
            self.wf(),
            index < self@.len(),
        ensures
            *r == self.factories()[index as int],
    {
        &self.factories[index]
    }

    /// The definition registered under `node_type`.
    pub fn node_def(&self, node_type: &str) -> (r: Option<&NodeDef>)
        ensures
            match r {
                Some(d) => def_lookup(self@, node_type@) == Some(d@),
                None => !has_def(self@, node_type@),
            },
    {
        match self.find(node_type) {
            Some(i) => Some(&self.defs[i]),
            None => None,
        }
    }

    /// The definition at position `index` (of `self@`).
    pub fn def_at(&self, index: usize) -> (r: &NodeDef)
        requires
            index < self@.len(),
        ensures
            r@ == self@[index as int],
    {
        &self.defs[index]
    }

    /// The position (in `self@`) of the definition registered under `node_type`.
    pub fn position(&self, node_type: &str) -> (r: Option<usize>)
        ensures
            r matches Some(i) ==> i == def_index(self@, node_type@) && i < self@.len(),
            r is None <==> !has_def(self@, node_type@),
    {
        self.find(node_type)
    }

    /// Whether a node type is registered under `node_type`.
    pub fn contains(&self, node_type: &str) -> (r: bool)
        ensures
            r == has_def(self@, node_type@),
    {
        self.find(node_type).is_some()
    }

    /// Copies of all definitions, sorted by type name.
    pub fn list_node_defs(&self) -> (r: Vec<NodeDef>)
        requires
            self.wf(),
        ensures
            lists_defs(def_views(r@), self@),
    {
        let mut out: Vec<NodeDef> = Vec::new();
        let mut i: usize = 0;
        while i < self.defs.len()
            invariant
                i <= self@.len(),
                self@.len() == self.defs@.len(),
                names_distinct(self@),
                def_views(out@).len() == i,
                sorted_by_name(def_views(out@)),
                forall|k: int| 0 <= k < i ==> def_views(out@).contains(#[trigger] self@[k]),
                forall|j: int| 0 <= j < out@.len() ==> self@.take(i as int).contains(#[trigger] def_views(out@)[j]),
            decreases self@.len() - i,
        {
            let def = self.defs[i].clone();
            let ghost dv = def@;
            assert(dv == self@[i as int]);
            let ghost bs = def_views(out@);
            let mut pos: usize = 0;
            while pos < out.len() && !text_less(def.node_type.as_str(), out[pos].node_type.as_str())
                invariant
                    pos <= out@.len(),
                    def@ == dv,
                    bs == def_views(out@),
                    forall|q: int| 0 <= q < pos ==> !text_lt(dv.node_type, #[trigger] bs[q].node_type),
                decreases out@.len() - pos,
            {
                assert(bs[pos as int] == out@[pos as int]@);
                pos = pos + 1;
            }
            proof {
                if pos < bs.len() {
                    assert(bs[pos as int] == out@[pos as int]@);
                }
                assert forall|q: int| 0 <= q < bs.len() implies bs[q].node_type != dv.node_type by {
                    assert(self@.take(i as int).contains(bs[q]));
                    let k = choose|k: int| 0 <= k < i && #[trigger] self@.take(i as int)[k] == bs[q];
                    assert(self@[k] == bs[q]);
                }
                lemma_sorted_insert(bs, pos as int, dv);
            }
            out.insert(pos, def);
            proof {
                assert(def_views(out@) =~= bs.insert(pos as int, dv));
                lemma_insert_contains(bs, pos as int, dv);
                assert(self@.take(i + 1) =~= self@.take(i as int).push(dv));
                assert forall|k: int| 0 <= k < i + 1 implies def_views(out@).contains(#[trigger] self@[k]) by {
                    if k < i {
                        assert(bs.contains(self@[k]));
                        assert(bs.insert(pos as int, dv).contains(self@[k]));
                    } else {
                        assert(self@[k] == dv);
                        assert(bs.insert(pos as int, dv)[pos as int] == dv);
                        assert(bs.insert(pos as int, dv).contains(self@[k]));
                    }
                }
                assert forall|j: int| 0 <= j < out@.len() implies self@.take(i + 1).contains(#[trigger] def_views(out@)[j]) by {
                    let x = def_views(out@)[j];
                    assert(def_views(out@).contains(x));
                    assert(bs.insert(pos as int, dv).contains(x));
                    if x != dv {
                        assert(bs.contains(x));
                        let q = choose|q: int| 0 <= q < bs.len() && bs[q] == x;
                        assert(self@.take(i as int).contains(bs[q]));
                        let k = choose|k: int| 0 <= k < i && #[trigger] self@.take(i as int)[k] == x;
                        assert(self@.take(i + 1)[k] == x);
                    } else {
                        assert(self@.take(i + 1)[i as int] == x);
                    }
                }
            }
            i = i + 1;
        }
        proof {
            assert(self@.take(i as int) =~= self@);
        }
        out
    }

    /// Loading WebAssembly plugins is not available: always an error.
    pub fn load_wasm_plugin(&mut self, _path: &str) -> (r: AqueductResult<()>)
        ensures
            r matches Err(e) && e.spec_kind() == ErrorKind::Registry && e.spec_code()@ == "REGISTRY_WASM_NOT_AVAILABLE"@
                && e.spec_message() == "Step 1 では WASM プラグイン読み込みは未実装です"@,
            final(self)@ == old(self)@,
    {
        Err(AqueductError::new(
            ErrorKind::Registry,
            "REGISTRY_WASM_NOT_AVAILABLE",
            String::from_str("Step 1 では WASM プラグイン読み込みは未実装です"),
        ))
    }

    /// Loads nothing: built-in node types are registered from outside the core.
    pub fn load_builtin_nodes(&mut self)
        ensures
            final(self)@ == old(self)@,
    {
    }
}

impl Default for NodeRegistry {
    fn default() -> (r: Self)
        ensures
            r@ == Seq::<NodeDefView>::empty(),
            r.wf(),
    {
        NodeRegistry::new()
    }
}

/// Once a type name is registered, it is taken: registering it again is refused.
pub proof fn lemma_registered_name_is_taken(defs: Seq<NodeDefView>, d: NodeDefView)
    ensures
        has_def(defs.push(d), d.node_type),
{
    assert(defs.push(d)[defs.len() as int].node_type == d.node_type);
}


} // verus!
