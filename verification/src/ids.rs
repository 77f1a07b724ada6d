//! Identifiers of pins, nodes and edges, and the byte order on their text.

use vstd::prelude::*;
use vstd::utf8::encode_utf8;
use vstd::utf8::encode_utf8_decode_utf8;

verus! {

/// Lexicographic strict order on byte strings (the order of `str` and `String`).
pub open spec fn bytes_lt(a: Seq<u8>, b: Seq<u8>) -> bool
    decreases a.len(),
{
    if a.len() == 0 {
        b.len() > 0
    } else if b.len() == 0 {
        false
    } else if a[0] < b[0] {
        true
    } else if a[0] > b[0] {
        false
    } else {
        bytes_lt(a.drop_first(), b.drop_first())
    }
}

/// Strict order on texts: the byte order of their UTF-8 encodings, which is how
/// `String` values are ordered.
pub open spec fn text_lt(a: Seq<char>, b: Seq<char>) -> bool {
    bytes_lt(encode_utf8(a), encode_utf8(b))
}

pub proof fn lemma_bytes_lt_irreflexive(a: Seq<u8>)
    ensures
        !bytes_lt(a, a),
    decreases a.len(),
{
    if a.len() > 0 {
        lemma_bytes_lt_irreflexive(a.drop_first());
    }
}

pub proof fn lemma_bytes_lt_asymmetric(a: Seq<u8>, b: Seq<u8>)
    requires
        bytes_lt(a, b),
    ensures
        !bytes_lt(b, a),
    decreases a.len(),
{
    if a.len() > 0 && b.len() > 0 && a[0] == b[0] {
        lemma_bytes_lt_asymmetric(a.drop_first(), b.drop_first());
    }
}

pub proof fn lemma_bytes_lt_transitive(a: Seq<u8>, b: Seq<u8>, c: Seq<u8>)
    requires
        bytes_lt(a, b),
        bytes_lt(b, c),
    ensures
        bytes_lt(a, c),
    decreases a.len(),
{
    if a.len() > 0 && b.len() > 0 && c.len() > 0 && a[0] == b[0] && b[0] == c[0] {
        lemma_bytes_lt_transitive(a.drop_first(), b.drop_first(), c.drop_first());
    }
}

pub proof fn lemma_bytes_lt_total(a: Seq<u8>, b: Seq<u8>)
    requires
        a != b,
    ensures
        bytes_lt(a, b) || bytes_lt(b, a),
    decreases a.len(),
{
    if a.len() > 0 && b.len() > 0 && a[0] == b[0] {
        if a.drop_first() == b.drop_first() {
            assert(a =~= seq![a[0]] + a.drop_first());
            assert(b =~= seq![b[0]] + b.drop_first());
        }
        lemma_bytes_lt_total(a.drop_first(), b.drop_first());
    } else if a.len() == 0 && b.len() == 0 {
        assert(a =~= b);
    }
}

proof fn lemma_bytes_lt_skip(a: Seq<u8>, b: Seq<u8>, i: int)
    requires
        0 <= i <= a.len(),
        i <= b.len(),
        a.take(i) =~= b.take(i),
    ensures
        bytes_lt(a, b) == bytes_lt(a.skip(i), b.skip(i)),
    decreases i,
{
    if i > 0 {
        assert(a[0] == a.take(i)[0]);
        assert(b[0] == b.take(i)[0]);
        assert(a.drop_first().take(i - 1) =~= b.drop_first().take(i - 1)) by {
            assert forall|j: int| 0 <= j < i - 1 implies a.drop_first()[j] == b.drop_first()[j] by {
                assert(a.take(i)[j + 1] == b.take(i)[j + 1]);
            }
        }
        lemma_bytes_lt_skip(a.drop_first(), b.drop_first(), i - 1);
        assert(a.drop_first().skip(i - 1) =~= a.skip(i));
        assert(b.drop_first().skip(i - 1) =~= b.skip(i));
    } else {
        assert(a.skip(0) =~= a);
        assert(b.skip(0) =~= b);
    }
}

/// Texts are distinct exactly when their encodings are distinct.
pub proof fn lemma_encode_injective(a: Seq<char>, b: Seq<char>)
    requires
        a != b,
    ensures
        encode_utf8(a) != encode_utf8(b),
{
    encode_utf8_decode_utf8(a);
    encode_utf8_decode_utf8(b);
}

pub proof fn lemma_text_lt_irreflexive(a: Seq<char>)
    ensures
        !text_lt(a, a),
{
    lemma_bytes_lt_irreflexive(encode_utf8(a));
}

pub proof fn lemma_text_lt_transitive(a: Seq<char>, b: Seq<char>, c: Seq<char>)
    requires
        text_lt(a, b),
        text_lt(b, c),
    ensures
        text_lt(a, c),
{
    lemma_bytes_lt_transitive(encode_utf8(a), encode_utf8(b), encode_utf8(c));
}

pub proof fn lemma_text_lt_asymmetric(a: Seq<char>, b: Seq<char>)
    requires
        text_lt(a, b),
    ensures
        !text_lt(b, a),
{
    lemma_bytes_lt_asymmetric(encode_utf8(a), encode_utf8(b));
}

pub proof fn lemma_text_lt_total(a: Seq<char>, b: Seq<char>)
    requires
        a != b,
    ensures
        text_lt(a, b) || text_lt(b, a),
{
    lemma_encode_injective(a, b);
    lemma_bytes_lt_total(encode_utf8(a), encode_utf8(b));
}

/// Compares two byte strings in lexicographic order.
pub fn bytes_less(a: &[u8], b: &[u8]) -> (r: bool)
    ensures
        r == bytes_lt(a@, b@),
{
    let mut i: usize = 0;
    while i < a.len() && i < b.len() && a[i] == b[i]
        invariant
            i <= a@.len(),
            i <= b@.len(),
            a@.take(i as int) =~= b@.take(i as int),
        decreases a@.len() - i,
    {
        assert(a@.take(i + 1) =~= a@.take(i as int).push(a@[i as int]));
        assert(b@.take(i + 1) =~= b@.take(i as int).push(b@[i as int]));
        i = i + 1;
    }
    proof {
        lemma_bytes_lt_skip(a@, b@, i as int);
    }
    if i == a.len() {
        i < b.len()
    } else if i == b.len() {
        false
    } else {
        a[i] < b[i]
    }
}

/// Compares two texts in the order of `str`.
pub fn text_less(a: &str, b: &str) -> (r: bool)
    ensures
        r == text_lt(a@, b@),
{
    bytes_less(a.as_bytes(), b.as_bytes())
}

/// Whether two texts are the same.
pub fn text_equal(a: &str, b: &str) -> (r: bool)
    ensures
        r == (a@ == b@),
{
    let lt = text_less(a, b);
    let gt = text_less(b, a);
    proof {
        if a@ == b@ {
            lemma_text_lt_irreflexive(a@);
        } else {
            lemma_text_lt_total(a@, b@);
        }
    }
    !lt && !gt
}

/// Identifier of a pin, local to its node.
#[derive(Debug, Eq, Hash, PartialOrd, Ord)]
pub struct PinId(pub String);

/// Identifier of a node instance.
#[derive(Debug, Eq, Hash, PartialOrd, Ord)]
pub struct NodeId(pub String);

/// Identifier of an edge.
#[derive(Debug, Eq, Hash, PartialOrd, Ord)]
pub struct EdgeId(pub String);

impl View for PinId {
    type V = Seq<char>;

    open spec fn view(&self) -> Seq<char> {
        self.0@
    }
}

impl View for NodeId {
    type V = Seq<char>;

    open spec fn view(&self) -> Seq<char> {
        self.0@
    }
}

impl View for EdgeId {
    type V = Seq<char>;

    open spec fn view(&self) -> Seq<char> {
        self.0@
    }
}

impl PinId {
    /// Makes an identifier from its text.
    pub fn new(value: &str) -> (r: Self)
        ensures
            r@ == value@,
    {
        PinId(value.to_owned())
    }

    /// The identifier's text.
    pub fn as_str(&self) -> (r: &str)
        ensures
            r@ == self@,
    {
        self.0.as_str()
    }
}

impl NodeId {
    /// Makes an identifier from its text.
    pub fn new(value: &str) -> (r: Self)
        ensures
            r@ == value@,
    {
        NodeId(value.to_owned())
    }

    /// The identifier's text.
    pub fn as_str(&self) -> (r: &str)
        ensures
            r@ == self@,
    {
        self.0.as_str()
    }

    /// Whether `self` sorts before `other` (the order of their texts).
    pub fn less_than(&self, other: &NodeId) -> (r: bool)
        ensures
            r == text_lt(self@, other@),
    {
        text_less(self.0.as_str(), other.0.as_str())
    }
}

impl EdgeId {
    /// Makes an identifier from its text.
    pub fn new(value: &str) -> (r: Self)
        ensures
            r@ == value@,
    {
        EdgeId(value.to_owned())
    }

    /// The identifier's text.
    pub fn as_str(&self) -> (r: &str)
        ensures
            r@ == self@,
    {
        self.0.as_str()
    }
}

impl Clone for PinId {
    fn clone(&self) -> (r: Self)
        ensures
            r == *self,
    {
        PinId(self.0.clone())
    }
}

impl Clone for NodeId {
    fn clone(&self) -> (r: Self)
        ensures
            r == *self,
    {
        NodeId(self.0.clone())
    }
}

impl Clone for EdgeId {
    fn clone(&self) -> (r: Self)
        ensures
            r == *self,
    {
        EdgeId(self.0.clone())
    }
}

impl PartialEq for PinId {
    fn eq(&self, other: &Self) -> (r: bool) {
        self.0 == other.0
    }
}

impl vstd::std_specs::cmp::PartialEqSpecImpl for PinId {
    open spec fn obeys_eq_spec() -> bool {
        true
    }

    open spec fn eq_spec(&self, other: &Self) -> bool {
        self@ == other@
    }
}

impl PartialEq for NodeId {
    fn eq(&self, other: &Self) -> (r: bool) {
        self.0 == other.0
    }
}

impl vstd::std_specs::cmp::PartialEqSpecImpl for NodeId {
    open spec fn obeys_eq_spec() -> bool {
        true
    }

    open spec fn eq_spec(&self, other: &Self) -> bool {
        self@ == other@
    }
}

impl PartialEq for EdgeId {
    fn eq(&self, other: &Self) -> (r: bool) {
        self.0 == other.0
    }
}

impl vstd::std_specs::cmp::PartialEqSpecImpl for EdgeId {
    open spec fn obeys_eq_spec() -> bool {
        true
    }

    open spec fn eq_spec(&self, other: &Self) -> bool {
        self@ == other@
    }
}

impl<'a> From<&'a str> for PinId {
    fn from(value: &'a str) -> (r: Self)
        ensures
            r@ == value@,
    {
        PinId(value.to_owned())
    }
}

impl<'a> vstd::std_specs::convert::FromSpecImpl<&'a str> for PinId {
    open spec fn obeys_from_spec() -> bool {
        false
    }

    open spec fn from_spec(v: &'a str) -> Self {
        vstd::pervasive::arbitrary()
    }
}

impl<'a> From<&'a str> for NodeId {
    fn from(value: &'a str) -> (r: Self)
        ensures
            r@ == value@,
    {
        NodeId(value.to_owned())
    }
}

impl<'a> vstd::std_specs::convert::FromSpecImpl<&'a str> for NodeId {
    open spec fn obeys_from_spec() -> bool {
        false
    }

    open spec fn from_spec(v: &'a str) -> Self {
        vstd::pervasive::arbitrary()
    }
}

impl<'a> From<&'a str> for EdgeId {
    fn from(value: &'a str) -> (r: Self)
        ensures
            r@ == value@,
    {
        EdgeId(value.to_owned())
    }
}

impl<'a> vstd::std_specs::convert::FromSpecImpl<&'a str> for EdgeId {
    open spec fn obeys_from_spec() -> bool {
        false
    }

    open spec fn from_spec(v: &'a str) -> Self {
        vstd::pervasive::arbitrary()
    }
}


impl From<String> for PinId {
    fn from(value: String) -> (r: Self) {
        PinId(value)
    }
}

impl vstd::std_specs::convert::FromSpecImpl<String> for PinId {
    open spec fn obeys_from_spec() -> bool {
        true
    }

    open spec fn from_spec(v: String) -> Self {
        PinId(v)
    }
}

impl From<String> for NodeId {
    fn from(value: String) -> (r: Self) {
        NodeId(value)
    }
}

impl vstd::std_specs::convert::FromSpecImpl<String> for NodeId {
    open spec fn obeys_from_spec() -> bool {
        true
    }

    open spec fn from_spec(v: String) -> Self {
        NodeId(v)
    }
}

impl From<String> for EdgeId {
    fn from(value: String) -> (r: Self) {
        EdgeId(value)
    }
}

impl vstd::std_specs::convert::FromSpecImpl<String> for EdgeId {
    open spec fn obeys_from_spec() -> bool {
        true
    }

    open spec fn from_spec(v: String) -> Self {
        EdgeId(v)
    }
}

/// The views of a sequence of node ids.
pub open spec fn id_views(ids: Seq<NodeId>) -> Seq<Seq<char>> {
    ids.map_values(|n: NodeId| n@)
}

/// `s` is in increasing order of text, each text once: the shape of an ordered set.
pub open spec fn strictly_sorted(s: Seq<Seq<char>>) -> bool {
    forall|i: int, j: int| 0 <= i < j < s.len() ==> text_lt(s[i], s[j])
}

/// Whether `id` is among `ids`.
pub fn contains_id(ids: &[NodeId], id: &NodeId) -> (r: bool)
    ensures
        r == id_views(ids@).contains(id@),
{
    let mut i: usize = 0;
    while i < ids.len()
        invariant
            i <= ids@.len(),
            forall|j: int| 0 <= j < i ==> id_views(ids@)[j] != id@,
        decreases ids@.len() - i,
    {
        if ids[i] == *id {
            assert(id_views(ids@)[i as int] == id@);
            return true;
        }
        i = i + 1;
    }
    false
}

/// Adds `id` to the ordered set `ids`, keeping it ordered; nothing changes when
/// `id` is already there.
pub fn insert_sorted(ids: &mut Vec<NodeId>, id: NodeId)
    requires
        strictly_sorted(id_views(old(ids)@)),
    ensures
        strictly_sorted(id_views(final(ids)@)),
        forall|k: Seq<char>| #[trigger] id_views(final(ids)@).contains(k) <==> (id_views(old(ids)@).contains(k) || k == id@),
{
    let ghost bs = id_views(ids@);
    let mut pos: usize = 0;
    while pos < ids.len() && ids[pos].less_than(&id)
        invariant
            pos <= ids@.len(),
            bs == id_views(ids@),
            forall|q: int| 0 <= q < pos ==> text_lt(#[trigger] bs[q], id@),
        decreases ids@.len() - pos,
    {
        assert(bs[pos as int] == ids@[pos as int]@);
        pos = pos + 1;
    }
    if pos < ids.len() && ids[pos] == id {
        proof {
            assert(bs[pos as int] == id@);
            assert forall|k: Seq<char>| #[trigger] bs.contains(k) <==> (bs.contains(k) || k == id@) by {
                if k == id@ {
                    assert(bs[pos as int] == k);
                }
            }
        }
        return;
    }
    proof {
        if pos < bs.len() {
            assert(bs[pos as int] == ids@[pos as int]@);
            assert(!text_lt(bs[pos as int], id@));
            assert(bs[pos as int] != id@);
            lemma_text_lt_total(bs[pos as int], id@);
        }
    }
    let ghost iv = id@;
    ids.insert(pos, id);
    proof {
        let vs = id_views(ids@);
        assert(vs =~= bs.insert(pos as int, iv));
        assert forall|a: int, b: int| 0 <= a < b < vs.len() implies text_lt(vs[a], vs[b]) by {
            if a < pos && b < pos {
                assert(vs[a] == bs[a] && vs[b] == bs[b]);
            } else if a < pos && b == pos {
                assert(vs[a] == bs[a]);
            } else if a < pos && b > pos {
                assert(vs[a] == bs[a] && vs[b] == bs[b - 1]);
            } else if a == pos {
                assert(vs[b] == bs[b - 1]);
                if b - 1 > pos {
                    lemma_text_lt_transitive(iv, bs[pos as int], bs[b - 1]);
                }
            } else {
                assert(vs[a] == bs[a - 1] && vs[b] == bs[b - 1]);
            }
        }
        assert forall|k: Seq<char>| #[trigger] vs.contains(k) <==> (bs.contains(k) || k == iv) by {
            if vs.contains(k) {
                let j = choose|j: int| 0 <= j < vs.len() && vs[j] == k;
                if j < pos {
                    assert(bs[j] == k);
                } else if j > pos {
                    assert(bs[j - 1] == k);
                }
            }
            if bs.contains(k) {
                let j = choose|j: int| 0 <= j < bs.len() && bs[j] == k;
                if j < pos {
                    assert(vs[j] == k);
                } else {
                    assert(vs[j + 1] == k);
                }
            }
            if k == iv {
                assert(vs[pos as int] == k);
            }
        }
    }
}

} // verus!
