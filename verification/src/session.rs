//! Client sessions: the pins each session subscribes to, and the values last sent
//! to it, from which each tick's changes are found.

use vstd::prelude::*;

use crate::compiler::scoped_views;
use crate::error::{concat2, AqueductError, AqueductResult, ErrorKind};
use crate::ids::{NodeId, PinId};
use crate::keyed::{has_key, key_index, keyed_insert, keyed_remove, keys_distinct, lemma_insert_distinct, lemma_key_index, lemma_remove_distinct, lookup};
use crate::model::{same_value, PinValue};
use crate::pin_store::{PinStore, ScopedPinId};

verus! {

/// The node id under which a session's subscriptions are kept: a subscription
/// names a pin id, whatever the node.
pub const WILDCARD_NODE_ID: &'static str = "__all_nodes__";

/// The scoped pin under which a subscription to `pin_id` is kept.
fn wildcard_scoped_pin(pin_id: PinId) -> (r: ScopedPinId)
    ensures
        r@ == (WILDCARD_NODE_ID@, pin_id@),
{
    ScopedPinId::new(NodeId::new(WILDCARD_NODE_ID), pin_id)
}

/// Whether `pin` is among `pins`.
fn contains_scoped(pins: &Vec<ScopedPinId>, pin: &ScopedPinId) -> (r: bool)
    ensures
        r == scoped_views(pins@).contains(pin@),
{
    let ghost vs = scoped_views(pins@);
    let mut i: usize = 0;
    while i < pins.len()
        invariant
            i <= vs.len(),
            vs == scoped_views(pins@),
            forall|j: int| 0 <= j < i ==> vs[j] != pin@,
        decreases vs.len() - i,
    {
        assert(vs[i as int] == pins@[i as int]@);
        if pins[i] == *pin {
            return true;
        }
        i = i + 1;
    }
    false
}

/// The views of pin values by pin id.
pub open spec fn pin_value_entries(s: Seq<(PinId, PinValue)>) -> Seq<(Seq<char>, PinValue)> {
    s.map_values(|e: (PinId, PinValue)| (e.0@, e.1))
}

/// The model of a session's state.
pub struct SessionStateView {
    /// The subscribed pins, each once.
    pub subscribed_pins: Seq<(Seq<char>, Seq<char>)>,
    /// The last value sent for each pin id.
    pub last_sent_values: Seq<(Seq<char>, PinValue)>,
}

/// What a session receives: the pins it subscribes to, and the values it was
/// last sent.
#[derive(Debug)]
pub struct SessionState {
    subscribed_pins: Vec<ScopedPinId>,
    last_sent_values: Vec<(PinId, PinValue)>,
}

impl View for SessionState {
    type V = SessionStateView;

    closed spec fn view(&self) -> SessionStateView {
        SessionStateView {
            subscribed_pins: scoped_views(self.subscribed_pins@),
            last_sent_values: pin_value_entries(self.last_sent_values@),
        }
    }
}

/// The state of a new session: nothing subscribed, nothing sent.
pub open spec fn fresh_session() -> SessionStateView {
    SessionStateView { subscribed_pins: Seq::empty(), last_sent_values: Seq::empty() }
}

/// Some subscription in `subscribed` is to pin id `pin`.
pub open spec fn subscribes_to(subscribed: Seq<(Seq<char>, Seq<char>)>, pin: Seq<char>) -> bool {
    exists|i: int| 0 <= i < subscribed.len() && #[trigger] subscribed[i].1 == pin
}

/// The changes found so far and the values sent so far, after one more store
/// entry is scanned: a subscribed pin whose value differs from the one last sent
/// is a change, and its value becomes the one last sent.
pub open spec fn scan_entry(
    acc: (Seq<(Seq<char>, PinValue)>, Seq<(Seq<char>, PinValue)>),
    subscribed: Seq<(Seq<char>, Seq<char>)>,
    entry: ((Seq<char>, Seq<char>), PinValue),
) -> (Seq<(Seq<char>, PinValue)>, Seq<(Seq<char>, PinValue)>) {
    let pin = entry.0.1;
    if !subscribes_to(subscribed, pin) {
        acc
    } else {
        match lookup(acc.1, pin) {
            Some(v) => if same_value(v, entry.1) {
                acc
            } else {
                (keyed_insert(acc.0, pin, entry.1), keyed_insert(acc.1, pin, entry.1))
            },
            None => (keyed_insert(acc.0, pin, entry.1), keyed_insert(acc.1, pin, entry.1)),
        }
    }
}

/// The changes of the store entries `values` for a session that subscribes to
/// `subscribed` and was last sent `last_sent`, with the values sent afterwards.
pub open spec fn scan(
    last_sent: Seq<(Seq<char>, PinValue)>,
    subscribed: Seq<(Seq<char>, Seq<char>)>,
    values: Seq<((Seq<char>, Seq<char>), PinValue)>,
) -> (Seq<(Seq<char>, PinValue)>, Seq<(Seq<char>, PinValue)>)
    decreases values.len(),
{
    if values.len() == 0 {
        (Seq::empty(), last_sent)
    } else {
        scan_entry(scan(last_sent, subscribed, values.drop_last()), subscribed, values.last())
    }
}

/// For each session in order, the changes of the store entries `values` (only the
/// sessions with some), and the sessions afterwards.
pub open spec fn collected(
    sessions: Seq<(Seq<char>, SessionStateView)>,
    values: Seq<((Seq<char>, Seq<char>), PinValue)>,
) -> (Seq<(Seq<char>, Seq<(Seq<char>, PinValue)>)>, Seq<(Seq<char>, SessionStateView)>)
    decreases sessions.len(),
{
    if sessions.len() == 0 {
        (Seq::empty(), Seq::empty())
    } else {
        let before = collected(sessions.drop_last(), values);
        let id = sessions.last().0;
        let state = sessions.last().1;
        let found = scan(state.last_sent_values, state.subscribed_pins, values);
        let after = SessionStateView { last_sent_values: found.1, ..state };
        (
            if found.0.len() > 0 {
                before.0.push((id, found.0))
            } else {
                before.0
            },
            before.1.push((id, after)),
        )
    }
}

impl SessionState {
    /// Each subscription once, each pin id sent once.
    pub closed spec fn wf(&self) -> bool {
        &&& self@.subscribed_pins.no_duplicates()
        &&& keys_distinct(self@.last_sent_values)
    }

    /// A session with nothing subscribed and nothing sent.
    pub fn new() -> (r: Self)
        ensures
            r@ == fresh_session(),
            r.wf(),
    {
        let r = SessionState { subscribed_pins: Vec::new(), last_sent_values: Vec::new() };
        assert(r@.subscribed_pins =~= Seq::empty());
        assert(r@.last_sent_values =~= Seq::empty());
        r
    }

    /// Whether some subscription is to pin id `pin_id`.
    fn is_subscribed_to_pin_id(&self, pin_id: &PinId) -> (r: bool)
        ensures
            r == subscribes_to(self@.subscribed_pins, pin_id@),
    {
        let ghost subs = self@.subscribed_pins;
        let mut i: usize = 0;
        while i < self.subscribed_pins.len()
            invariant
                i <= subs.len(),
                subs == self@.subscribed_pins,
                forall|j: int| 0 <= j < i ==> subs[j].1 != pin_id@,
            decreases subs.len() - i,
        {
            assert(subs[i as int] == self.subscribed_pins@[i as int]@);
            if self.subscribed_pins[i].pin_id == *pin_id {
                assert(subs[i as int].1 == pin_id@);
                return true;
            }
            i = i + 1;
        }
        false
    }

    /// A copy of the state.
    pub fn duplicate(&self) -> (r: Self)
        ensures
            r@ == self@,
            self.wf() ==> r.wf(),
    {
        let subscribed_pins = self.subscribed_pins.clone();
        assert(subscribed_pins@ =~= self.subscribed_pins@);
        let last_sent_values = copy_pin_values(&self.last_sent_values);
        SessionState { subscribed_pins, last_sent_values }
    }
}

impl Clone for SessionState {
    fn clone(&self) -> (r: Self)
        ensures
            r@ == self@,
    {
        self.duplicate()
    }
}

impl Default for SessionState {
    fn default() -> (r: Self)
        ensures
            r@ == fresh_session(),
    {
        SessionState::new()
    }
}

/// A copy of pin values by pin id.
fn copy_pin_values(values: &Vec<(PinId, PinValue)>) -> (r: Vec<(PinId, PinValue)>)
    ensures
        r@ == values@,
{
    let mut out: Vec<(PinId, PinValue)> = Vec::new();
    let mut i: usize = 0;
    while i < values.len()
        invariant
            i <= values@.len(),
            out@ == values@.take(i as int),
        decreases values@.len() - i,
    {
        let k = values[i].0.clone();
        let v = values[i].1.clone();
        out.push((k, v));
        assert(values@.take(i + 1) =~= values@.take(i as int).push(values@[i as int]));
        i = i + 1;
    }
    assert(values@.take(values@.len() as int) =~= values@);
    out
}

/// The position of the value of pin id `pin`.
fn find_pin_value(values: &Vec<(PinId, PinValue)>, pin: &PinId) -> (r: Option<usize>)
    ensures
        r matches Some(i) ==> i == key_index(pin_value_entries(values@), pin@) && i < values@.len(),
        r is None <==> !has_key(pin_value_entries(values@), pin@),
{
    let ghost es = pin_value_entries(values@);
    let mut i: usize = 0;
    while i < values.len()
        invariant
            i <= es.len(),
            es == pin_value_entries(values@),
            forall|j: int| 0 <= j < i ==> es[j].0 != pin@,
        decreases es.len() - i,
    {
        assert(es[i as int].0 == values@[i as int].0@);
        if values[i].0 == *pin {
            proof {
                lemma_key_index(es, pin@);
            }
            return Some(i);
        }
        i = i + 1;
    }
    proof {
        lemma_key_index(es, pin@);
    }
    None
}

/// Stores `value` under pin id `pin`, replacing the value there if any.
fn put_pin_value(values: &mut Vec<(PinId, PinValue)>, pin: PinId, value: PinValue)
    ensures
        pin_value_entries(final(values)@) == keyed_insert(pin_value_entries(old(values)@), pin@, value),
        keys_distinct(pin_value_entries(old(values)@)) ==> keys_distinct(pin_value_entries(final(values)@)),
{
    let ghost before = pin_value_entries(values@);
    let ghost kv = pin@;
    proof {
        lemma_key_index(before, kv);
        if keys_distinct(before) {
            lemma_insert_distinct(before, kv, value);
        }
    }
    match find_pin_value(values, &pin) {
        Some(i) => {
            values.set(i, (pin, value));
        },
        None => {
            values.push((pin, value));
        },
    }
    assert(pin_value_entries(values@) =~= keyed_insert(before, kv, value));
}

/// The changes in `store` for `state`, and the values sent afterwards (see `scan`).
fn scan_store(state: &SessionState, store: &PinStore) -> (r: (Vec<(PinId, PinValue)>, Vec<(PinId, PinValue)>))
    requires
        state.wf(),
    ensures
        (pin_value_entries(r.0@), pin_value_entries(r.1@)) == scan(
            state@.last_sent_values,
            state@.subscribed_pins,
            store@.values,
        ),
        keys_distinct(pin_value_entries(r.1@)),
{
    let entries = store.value_entries();
    let ghost vs = store@.values;
    let mut changed: Vec<(PinId, PinValue)> = Vec::new();
    let mut sent = copy_pin_values(&state.last_sent_values);
    let mut i: usize = 0;
    assert(pin_value_entries(changed@) =~= Seq::empty());
    assert(vs.take(0) =~= Seq::empty());
    while i < entries.len()
        invariant
            i <= vs.len(),
            vs == store@.values,
            entries@.len() == vs.len(),
            forall|x: int| 0 <= x < entries@.len() ==> (#[trigger] entries@[x]).0@ == vs[x].0 && entries@[x].1 == vs[x].1,
            state.wf(),
            keys_distinct(pin_value_entries(sent@)),
            (pin_value_entries(changed@), pin_value_entries(sent@)) == scan(
                state@.last_sent_values,
                state@.subscribed_pins,
                vs.take(i as int),
            ),
        decreases vs.len() - i,
    {
        proof {
            let t = vs.take(i + 1);
            assert(t.drop_last() =~= vs.take(i as int));
            assert(t.last() == vs[i as int]);
        }
        let pin = &entries[i].0;
        let value = &entries[i].1;
        assert(pin@ == vs[i as int].0);
        if state.is_subscribed_to_pin_id(&pin.pin_id) {
            let unchanged = match find_pin_value(&sent, &pin.pin_id) {
                Some(j) => {
                    proof {
                        lemma_key_index(pin_value_entries(sent@), pin.pin_id@);
                    }
                    sent[j].1 == *value
                },
                None => false,
            };
            if !unchanged {
                put_pin_value(&mut changed, pin.pin_id.clone(), value.clone());
                put_pin_value(&mut sent, pin.pin_id.clone(), value.clone());
            }
        }
        i = i + 1;
    }
    assert(vs.take(vs.len() as int) =~= vs);
    (changed, sent)
}

/// The model of a diff.
pub struct SessionPinDiffView {
    pub session_id: Seq<char>,
    pub values: Seq<(Seq<char>, PinValue)>,
}

/// The values of one session's subscribed pins that changed since they were last
/// sent to it.
#[derive(Debug, PartialEq)]
pub struct SessionPinDiff {
    /// The session.
    pub session_id: String,
    /// The changed values by pin id.
    pub values: Vec<(PinId, PinValue)>,
}

impl View for SessionPinDiff {
    type V = SessionPinDiffView;

    open spec fn view(&self) -> SessionPinDiffView {
        SessionPinDiffView { session_id: self.session_id@, values: pin_value_entries(self.values@) }
    }
}

impl Clone for SessionPinDiff {
    fn clone(&self) -> (r: Self)
        ensures
            r@ == self@,
    {
        SessionPinDiff { session_id: self.session_id.clone(), values: copy_pin_values(&self.values) }
    }
}

/// The views of diffs, as pairs.
pub open spec fn diff_views(diffs: Seq<SessionPinDiff>) -> Seq<(Seq<char>, Seq<(Seq<char>, PinValue)>)> {
    diffs.map_values(|d: SessionPinDiff| (d@.session_id, d@.values))
}

/// The views of sessions by id.
pub open spec fn session_entries(s: Seq<(String, SessionState)>) -> Seq<(Seq<char>, SessionStateView)> {
    s.map_values(|e: (String, SessionState)| (e.0@, e.1@))
}

/// The views of pin ids.
pub open spec fn pin_views(ids: Seq<PinId>) -> Seq<Seq<char>> {
    ids.map_values(|p: PinId| p@)
}

/// The subscriptions to pin ids other than `targets`.
pub open spec fn untargeted_pin(targets: Seq<Seq<char>>) -> spec_fn((Seq<char>, Seq<char>)) -> bool {
    |p: (Seq<char>, Seq<char>)| !targets.contains(p.1)
}

/// The values sent for pin ids other than `targets`.
pub open spec fn untargeted_value(targets: Seq<Seq<char>>) -> spec_fn((Seq<char>, PinValue)) -> bool {
    |e: (Seq<char>, PinValue)| !targets.contains(e.0)
}

/// Whether `id` is among `ids`.
fn contains_pin_id(ids: &[PinId], id: &PinId) -> (r: bool)
    ensures
        r == pin_views(ids@).contains(id@),
{
    let mut i: usize = 0;
    while i < ids.len()
        invariant
            i <= ids@.len(),
            forall|j: int| 0 <= j < i ==> pin_views(ids@)[j] != id@,
        decreases ids@.len() - i,
    {
        if ids[i] == *id {
            assert(pin_views(ids@)[i as int] == id@);
            return true;
        }
        i = i + 1;
    }
    false
}

/// The sessions by id.
#[derive(Debug)]
pub struct SessionManager {
    sessions: Vec<(String, SessionState)>,
}

impl View for SessionManager {
    type V = Seq<(Seq<char>, SessionStateView)>;

    closed spec fn view(&self) -> Seq<(Seq<char>, SessionStateView)> {
        session_entries(self.sessions@)
    }
}

/// `after` is `before` with session `session_id` also subscribed to pin ids
/// `pin_ids` (under the wildcard node id); nothing else changes.
pub open spec fn subscription_added(
    before: Seq<(Seq<char>, SessionStateView)>,
    after: Seq<(Seq<char>, SessionStateView)>,
    session_id: Seq<char>,
    pin_ids: Seq<PinId>,
) -> bool {
    let i = key_index(before, session_id);
    let old_state = before[i].1;
    let new_state = after[i].1;
    &&& after.len() == before.len()
    &&& forall|j: int| 0 <= j < before.len() && j != i ==> #[trigger] after[j] == before[j]
    &&& after[i].0 == session_id
    &&& new_state.last_sent_values == old_state.last_sent_values
    &&& forall|p: (Seq<char>, Seq<char>)| #[trigger] new_state.subscribed_pins.contains(p) <==> (old_state.subscribed_pins.contains(p)
        || (p.0 == WILDCARD_NODE_ID@ && exists|k: int| 0 <= k < pin_ids.len() && #[trigger] pin_ids[k]@ == p.1))
}

/// `sessions` with session `session_id` unsubscribed from pin ids `pin_ids`, and
/// the values last sent for them forgotten.
pub open spec fn subscription_removed(
    sessions: Seq<(Seq<char>, SessionStateView)>,
    session_id: Seq<char>,
    pin_ids: Seq<PinId>,
) -> Seq<(Seq<char>, SessionStateView)> {
    let i = key_index(sessions, session_id);
    let state = sessions[i].1;
    sessions.update(
        i,
        (
            session_id,
            SessionStateView {
                subscribed_pins: state.subscribed_pins.filter(untargeted_pin(pin_views(pin_ids))),
                last_sent_values: state.last_sent_values.filter(untargeted_value(pin_views(pin_ids))),
            },
        ),
    )
}

/// The message of a session that is not there.
pub open spec fn session_not_found_message(session_id: Seq<char>) -> Seq<char> {
    "セッションが見つかりません: "@ + session_id
}

impl SessionManager {
    /// Distinct session ids, and every session's state well formed.
    pub closed spec fn wf(&self) -> bool {
        &&& keys_distinct(self@)
        &&& forall|i: int| 0 <= i < self.sessions@.len() ==> (#[trigger] self.sessions@[i]).1.wf()
    }

    /// In a well-formed manager, the values last sent to each session are kept
    /// once per pin id.
    pub proof fn lemma_sent_values_distinct(&self)
        requires
            self.wf(),
        ensures
            forall|i: int| 0 <= i < self@.len() ==> keys_distinct(#[trigger] self@[i].1.last_sent_values),
            keys_distinct(self@),
    {
        assert forall|i: int| 0 <= i < self@.len() implies keys_distinct(#[trigger] self@[i].1.last_sent_values) by {
            assert(self.sessions@[i].1.wf());
        }
    }

    /// No sessions.
    pub fn new() -> (r: Self)
        ensures
            r@ == Seq::<(Seq<char>, SessionStateView)>::empty(),
            r.wf(),
    {
        let r = SessionManager { sessions: Vec::new() };
        assert(r@ =~= Seq::<(Seq<char>, SessionStateView)>::empty());
        r
    }

    fn find(&self, session_id: &str) -> (r: Option<usize>)
        ensures
            r matches Some(i) ==> i == key_index(self@, session_id@) && i < self@.len(),
            r is None <==> !has_key(self@, session_id@),
    {
        let mut i: usize = 0;
        while i < self.sessions.len()
            invariant
                i <= self@.len(),
                forall|j: int| 0 <= j < i ==> self@[j].0 != session_id@,
            decreases self@.len() - i,
        {
            assert(self@[i as int].0 == self.sessions@[i as int].0@);
            if crate::ids::text_equal(self.sessions[i].0.as_str(), session_id) {
                proof {
                    lemma_key_index(self@, session_id@);
                }
                return Some(i);
            }
            i = i + 1;
        }
        proof {
            lemma_key_index(self@, session_id@);
        }
        None
    }

    /// Adds a session with nothing subscribed; a session already under that id
    /// starts over.
    pub fn add_session(&mut self, session_id: &str) -> (r: AqueductResult<()>)
        requires
            old(self).wf(),
        ensures
            final(self).wf(),
            r is Ok,
            final(self)@ == keyed_insert(old(self)@, session_id@, fresh_session()),
    {
        let ghost before = self@;
        let state = SessionState::new();
        proof {
            lemma_key_index(before, session_id@);
            lemma_insert_distinct(before, session_id@, fresh_session());
        }
        match self.find(session_id) {
            Some(i) => {
                self.sessions.set(i, (String::from_str(session_id), state));
            },
            None => {
                self.sessions.push((String::from_str(session_id), state));
            },
        }
        assert(self@ =~= keyed_insert(before, session_id@, fresh_session()));
        Ok(())
    }

    /// Removes a session, if it is there.
    pub fn remove_session(&mut self, session_id: &str) -> (r: AqueductResult<()>)
        requires
            old(self).wf(),
        ensures
            final(self).wf(),
            r is Ok,
            final(self)@ == keyed_remove(old(self)@, session_id@),
    {
        let ghost before = self@;
        proof {
            lemma_key_index(before, session_id@);
            lemma_remove_distinct(before, session_id@);
        }
        match self.find(session_id) {
            Some(i) => {
                let _removed = self.sessions.remove(i);
                assert(self@ =~= keyed_remove(before, session_id@));
            },
            None => {},
        }
        Ok(())
    }

    /// Subscribes a session to pin ids `pin_ids` (under the wildcard node id).
    /// Refused when there is no such session.
    pub fn subscribe_pins(&mut self, session_id: &str, pin_ids: &[PinId]) -> (r: AqueductResult<()>)
        requires
            old(self).wf(),
        ensures
            final(self).wf(),
            !has_key(old(self)@, session_id@) ==> (r matches Err(e)
                && e.spec_kind() == ErrorKind::Server
                && e.spec_code()@ == "SESSION_MANAGER_SESSION_NOT_FOUND"@
                && e.spec_message() == session_not_found_message(session_id@)
                && final(self)@ == old(self)@),
            has_key(old(self)@, session_id@) ==> r is Ok && subscription_added(old(self)@, final(self)@, session_id@, pin_ids@),
    {
        let ghost before = self@;
        let i = match self.find(session_id) {
            Some(i) => i,
            None => {
                return Err(AqueductError::new(
                    ErrorKind::Server,
                    "SESSION_MANAGER_SESSION_NOT_FOUND",
                    concat2("セッションが見つかりません: ", session_id),
                ));
            },
        };
        proof {
            lemma_key_index(before, session_id@);
        }
        let mut state = self.sessions[i].1.duplicate();
        let ghost start = state@.subscribed_pins;
        let mut k: usize = 0;
        while k < pin_ids.len()
            invariant
                k <= pin_ids@.len(),
                i < before.len(),
                state.wf(),
                state@.last_sent_values == before[i as int].1.last_sent_values,
                start == before[i as int].1.subscribed_pins,
                forall|p: (Seq<char>, Seq<char>)| #[trigger] state@.subscribed_pins.contains(p) <==> (start.contains(p)
                    || (p.0 == WILDCARD_NODE_ID@ && exists|x: int| 0 <= x < k && #[trigger] pin_ids@[x]@ == p.1)),
            decreases pin_ids@.len() - k,
        {
            let scoped = wildcard_scoped_pin(pin_ids[k].clone());
            let ghost sv = scoped@;
            let ghost subs = state@.subscribed_pins;
            let present = contains_scoped(&state.subscribed_pins, &scoped);
            if !present {
                state.subscribed_pins.push(scoped);
                proof {
                    assert(state@.subscribed_pins =~= subs.push(sv));
                    assert(state@.subscribed_pins.no_duplicates()) by {
                        assert forall|a: int, b: int| 0 <= a < state@.subscribed_pins.len() && 0 <= b < state@.subscribed_pins.len() && a != b
                            implies state@.subscribed_pins[a] != state@.subscribed_pins[b] by {
                            if a < subs.len() && b < subs.len() {
                            } else if a < subs.len() {
                                assert(subs[a] != sv);
                            } else {
                                assert(subs[b] != sv);
                            }
                        }
                    }
                    assert forall|p: (Seq<char>, Seq<char>)| #[trigger] state@.subscribed_pins.contains(p) <==> (subs.contains(p) || p == sv) by {
                        if state@.subscribed_pins.contains(p) {
                            let y = choose|y: int| 0 <= y < state@.subscribed_pins.len() && state@.subscribed_pins[y] == p;
                            if y < subs.len() {
                                assert(subs[y] == p);
                            }
                        }
                        if subs.contains(p) {
                            let y = choose|y: int| 0 <= y < subs.len() && subs[y] == p;
                            assert(state@.subscribed_pins[y] == p);
                        }
                        if p == sv {
                            assert(state@.subscribed_pins[subs.len() as int] == p);
                        }
                    }
                }
            } else {
                proof {
                    assert(subs.contains(sv));
                }
            }
            proof {
                assert forall|p: (Seq<char>, Seq<char>)| #[trigger] state@.subscribed_pins.contains(p) <==> (start.contains(p)
                    || (p.0 == WILDCARD_NODE_ID@ && exists|y: int| 0 <= y < k + 1 && #[trigger] pin_ids@[y]@ == p.1)) by {
                    if p.0 == WILDCARD_NODE_ID@ && pin_ids@[k as int]@ == p.1 {
                        assert(p == sv);
                    }
                    if p.0 == WILDCARD_NODE_ID@ && exists|y: int| 0 <= y < k + 1 && #[trigger] pin_ids@[y]@ == p.1 {
                        let y = choose|y: int| 0 <= y < k + 1 && #[trigger] pin_ids@[y]@ == p.1;
                        if y < k {
                            assert(exists|z: int| 0 <= z < k && #[trigger] pin_ids@[z]@ == p.1);
                        } else {
                            assert(p == sv);
                        }
                    }
                }
            }
            k = k + 1;
        }
        let id = self.sessions[i].0.clone();
        let ghost sv = state@;
        self.sessions.set(i, (id, state));
        proof {
            assert(self@ =~= before.update(i as int, (session_id@, sv)));
            assert forall|a: int, b: int| 0 <= a < self@.len() && 0 <= b < self@.len() && a != b implies self@[a].0 != self@[b].0 by {
                assert(self@[a].0 == before[a].0);
                assert(self@[b].0 == before[b].0);
            }
        }
        Ok(())
    }

    /// Unsubscribes a session from pin ids `pin_ids`, and forgets the values last
    /// sent for them. Refused when there is no such session.
    pub fn unsubscribe_pins(&mut self, session_id: &str, pin_ids: &[PinId]) -> (r: AqueductResult<()>)
        requires
            old(self).wf(),
        ensures
            final(self).wf(),
            !has_key(old(self)@, session_id@) ==> (r matches Err(e)
                && e.spec_kind() == ErrorKind::Server
                && e.spec_code()@ == "SESSION_MANAGER_SESSION_NOT_FOUND"@
                && e.spec_message() == session_not_found_message(session_id@)
                && final(self)@ == old(self)@),
            has_key(old(self)@, session_id@) ==> r is Ok && final(self)@ == subscription_removed(old(self)@, session_id@, pin_ids@),
    {
        let ghost before = self@;
        let ghost targets = pin_views(pin_ids@);
        let i = match self.find(session_id) {
            Some(i) => i,
            None => {
                return Err(AqueductError::new(
                    ErrorKind::Server,
                    "SESSION_MANAGER_SESSION_NOT_FOUND",
                    concat2("セッションが見つかりません: ", session_id),
                ));
            },
        };
        proof {
            lemma_key_index(before, session_id@);
        }
        let state = &self.sessions[i].1;
        let ghost sv = state@;
        let mut subscribed_pins: Vec<ScopedPinId> = Vec::new();
        let mut k: usize = 0;
        while k < state.subscribed_pins.len()
            invariant
                k <= sv.subscribed_pins.len(),
                sv == state@,
                targets == pin_views(pin_ids@),
                scoped_views(subscribed_pins@) == sv.subscribed_pins.take(k as int).filter(untargeted_pin(targets)),
            decreases sv.subscribed_pins.len() - k,
        {
            proof {
                let t = sv.subscribed_pins.take(k + 1);
                assert(t.drop_last() =~= sv.subscribed_pins.take(k as int));
                assert(t.last() == sv.subscribed_pins[k as int]);
                reveal(Seq::filter);
            }
            let pin = &state.subscribed_pins[k];
            assert(sv.subscribed_pins[k as int] == pin@);
            if !contains_pin_id(pin_ids, &pin.pin_id) {
                let ghost prev = scoped_views(subscribed_pins@);
                subscribed_pins.push(pin.clone());
                assert(scoped_views(subscribed_pins@) =~= prev.push(pin@));
            }
            k = k + 1;
        }
        let mut last_sent_values: Vec<(PinId, PinValue)> = Vec::new();
        let mut k: usize = 0;
        while k < state.last_sent_values.len()
            invariant
                k <= sv.last_sent_values.len(),
                sv == state@,
                targets == pin_views(pin_ids@),
                pin_value_entries(last_sent_values@) == sv.last_sent_values.take(k as int).filter(untargeted_value(targets)),
            decreases sv.last_sent_values.len() - k,
        {
            proof {
                let t = sv.last_sent_values.take(k + 1);
                assert(t.drop_last() =~= sv.last_sent_values.take(k as int));
                assert(t.last() == sv.last_sent_values[k as int]);
                reveal(Seq::filter);
            }
            let entry = &state.last_sent_values[k];
            assert(sv.last_sent_values[k as int] == (entry.0@, entry.1));
            if !contains_pin_id(pin_ids, &entry.0) {
                let ghost prev = pin_value_entries(last_sent_values@);
                last_sent_values.push((entry.0.clone(), entry.1.clone()));
                assert(pin_value_entries(last_sent_values@) =~= prev.push((entry.0@, entry.1)));
            }
            k = k + 1;
        }
        proof {
            assert(sv.subscribed_pins.take(sv.subscribed_pins.len() as int) =~= sv.subscribed_pins);
            assert(sv.last_sent_values.take(sv.last_sent_values.len() as int) =~= sv.last_sent_values);
            lemma_filter_keeps_distinct(sv.subscribed_pins, untargeted_pin(targets));
            lemma_filter_keeps_keys_distinct(sv.last_sent_values, untargeted_value(targets));
        }
        let new_state = SessionState { subscribed_pins, last_sent_values };
        let id = self.sessions[i].0.clone();
        let ghost nv = new_state@;
        self.sessions.set(i, (id, new_state));
        proof {
            assert(self@ =~= before.update(i as int, (session_id@, nv)));
            assert forall|a: int, b: int| 0 <= a < self@.len() && 0 <= b < self@.len() && a != b implies self@[a].0 != self@[b].0 by {
                assert(self@[a].0 == before[a].0);
                assert(self@[b].0 == before[b].0);
            }
        }
        Ok(())
    }

    /// A copy of the pins a session subscribes to; none when there is no such
    /// session.
    pub fn subscribed_pins(&self, session_id: &str) -> (r: AqueductResult<Option<Vec<ScopedPinId>>>)
        ensures
            r matches Ok(found) && match found {
                Some(pins) => has_key(self@, session_id@) && scoped_views(pins@) == lookup(self@, session_id@).unwrap().subscribed_pins,
                None => !has_key(self@, session_id@),
            },
    {
        match self.find(session_id) {
            Some(i) => {
                proof {
                    lemma_key_index(self@, session_id@);
                }
                let pins = self.sessions[i].1.subscribed_pins.clone();
                assert(pins@ =~= self.sessions@[i as int].1.subscribed_pins@);
                Ok(Some(pins))
            },
            None => Ok(None),
        }
    }

    /// For each session, the values of its subscribed pins in `pin_store` that
    /// differ from those last sent to it (see `collected`); those values become the
    /// last sent. Sessions without changes get no diff.
    pub fn collect_pin_diffs(&mut self, pin_store: &PinStore) -> (r: AqueductResult<Vec<SessionPinDiff>>)
        requires
            old(self).wf(),
        ensures
            final(self).wf(),
            r matches Ok(diffs) && (diff_views(diffs@), final(self)@) == collected(old(self)@, pin_store@.values),
    {
        let ghost before = self@;
        let ghost vs = pin_store@.values;
        let mut diffs: Vec<SessionPinDiff> = Vec::new();
        let mut sessions: Vec<(String, SessionState)> = Vec::new();
        let mut i: usize = 0;
        assert(diff_views(diffs@) =~= Seq::empty());
        assert(session_entries(sessions@) =~= Seq::empty());
        while i < self.sessions.len()
            invariant
                i <= before.len(),
                before == self@,
                self.wf(),
                vs == pin_store@.values,
                (diff_views(diffs@), session_entries(sessions@)) == collected(before.take(i as int), vs),
                session_entries(sessions@).len() == i,
                forall|j: int| 0 <= j < i ==> (#[trigger] session_entries(sessions@)[j]).0 == before[j].0,
                forall|j: int| 0 <= j < i ==> (#[trigger] sessions@[j]).1.wf(),
            decreases before.len() - i,
        {
            proof {
                let t = before.take(i + 1);
                assert(t.drop_last() =~= before.take(i as int));
                assert(t.last() == before[i as int]);
            }
            let entry = &self.sessions[i];
            assert(before[i as int] == (entry.0@, entry.1@));
            let (changed, sent) = scan_store(&entry.1, pin_store);
            let new_state = SessionState { subscribed_pins: entry.1.subscribed_pins.clone(), last_sent_values: sent };
            proof {
                assert(new_state.subscribed_pins@ =~= entry.1.subscribed_pins@);
            }
            let ghost prev_diffs = diff_views(diffs@);
            let ghost prev_sessions = session_entries(sessions@);
            if changed.len() > 0 {
                let diff = SessionPinDiff { session_id: entry.0.clone(), values: changed };
                diffs.push(diff);
                assert(diff_views(diffs@) =~= prev_diffs.push((entry.0@, pin_value_entries(changed@))));
            }
            let ghost nv = new_state@;
            sessions.push((entry.0.clone(), new_state));
            assert(session_entries(sessions@) =~= prev_sessions.push((entry.0@, nv)));
            i = i + 1;
        }
        proof {
            assert(before.take(before.len() as int) =~= before);
        }
        self.sessions = sessions;
        proof {
            assert forall|a: int, b: int| 0 <= a < self@.len() && 0 <= b < self@.len() && a != b implies self@[a].0 != self@[b].0 by {
                assert(self@[a].0 == before[a].0);
                assert(self@[b].0 == before[b].0);
            }
        }
        Ok(diffs)
    }
}


proof fn lemma_filter_keeps_distinct<A>(s: Seq<A>, pred: spec_fn(A) -> bool)
    requires
        s.no_duplicates(),
    ensures
        s.filter(pred).no_duplicates(),
    decreases s.len(),
{
    reveal(Seq::filter);
    if s.len() > 0 {
        lemma_filter_keeps_distinct(s.drop_last(), pred);
        let rest = s.drop_last().filter(pred);
        if pred(s.last()) {
            assert(!rest.contains(s.last())) by {
                if rest.contains(s.last()) {
                    let j = choose|j: int| 0 <= j < rest.len() && rest[j] == s.last();
                    s.drop_last().lemma_filter_contains_rev(pred, s.last());
                    assert(s.drop_last().contains(s.last()));
                    let k = choose|k: int| 0 <= k < s.drop_last().len() && s.drop_last()[k] == s.last();
                    assert(s[k] == s[s.len() - 1]);
                }
            }
            assert forall|a: int, b: int| 0 <= a < rest.push(s.last()).len() && 0 <= b < rest.push(s.last()).len() && a != b
                implies rest.push(s.last())[a] != rest.push(s.last())[b] by {
                if a == rest.len() {
                    assert(rest.contains(rest[b]));
                } else if b == rest.len() {
                    assert(rest.contains(rest[a]));
                }
            }
        }
    }
}

proof fn lemma_filter_keeps_keys_distinct<K, V>(s: Seq<(K, V)>, pred: spec_fn((K, V)) -> bool)
    requires
        keys_distinct(s),
    ensures
        keys_distinct(s.filter(pred)),
    decreases s.len(),
{
    reveal(Seq::filter);
    if s.len() > 0 {
        let init = s.drop_last();
        assert(keys_distinct(init));
        lemma_filter_keeps_keys_distinct(init, pred);
        let rest = init.filter(pred);
        if pred(s.last()) {
            assert forall|j: int| 0 <= j < rest.len() implies rest[j].0 != s.last().0 by {
                init.lemma_filter_contains_rev(pred, rest[j]);
                assert(rest.contains(rest[j]));
                assert(init.contains(rest[j]));
                let k = choose|k: int| 0 <= k < init.len() && init[k] == rest[j];
                assert(s[k] == init[k]);
            }
            let t = rest.push(s.last());
            assert forall|a: int, b: int| 0 <= a < t.len() && 0 <= b < t.len() && a != b implies t[a].0 != t[b].0 by {
                if a == rest.len() {
                    assert(t[b] == rest[b]);
                } else if b == rest.len() {
                    assert(t[a] == rest[a]);
                } else {
                    assert(t[a] == rest[a] && t[b] == rest[b]);
                }
            }
        }
    }
}


/// The entries of a store for the same pin id, among the pin ids of
/// `subscribed`, hold equal values (each entry's value equal to itself).
pub open spec fn consistent_pin_values(
    values: Seq<((Seq<char>, Seq<char>), PinValue)>,
    subscribed: Seq<(Seq<char>, Seq<char>)>,
) -> bool {
    forall|i: int, j: int|
        0 <= i < values.len() && 0 <= j < values.len() && #[trigger] values[i].0.1 == #[trigger] values[j].0.1
            && subscribes_to(subscribed, values[i].0.1) ==> same_value(values[i].1, values[j].1)
}

/// After a scan, every subscribed pin id of the store was last sent a value equal
/// to the store's (when the store is consistent).
proof fn lemma_scan_covers(
    last_sent: Seq<(Seq<char>, PinValue)>,
    subscribed: Seq<(Seq<char>, Seq<char>)>,
    values: Seq<((Seq<char>, Seq<char>), PinValue)>,
)
    requires
        keys_distinct(last_sent),
        consistent_pin_values(values, subscribed),
    ensures
        keys_distinct(scan(last_sent, subscribed, values).1),
        forall|j: int| 0 <= j < values.len() && subscribes_to(subscribed, #[trigger] values[j].0.1) ==> {
            let sent = scan(last_sent, subscribed, values).1;
            &&& lookup(sent, values[j].0.1) is Some
            &&& same_value(lookup(sent, values[j].0.1).unwrap(), values[j].1)
        },
    decreases values.len(),
{
    if values.len() > 0 {
        let init = values.drop_last();
        assert(consistent_pin_values(init, subscribed)) by {
            assert forall|i: int, j: int| 0 <= i < init.len() && 0 <= j < init.len() && #[trigger] init[i].0.1 == #[trigger] init[j].0.1
                && subscribes_to(subscribed, init[i].0.1) implies same_value(init[i].1, init[j].1) by {
                assert(init[i] == values[i] && init[j] == values[j]);
            }
        }
        lemma_scan_covers(last_sent, subscribed, init);
        let acc = scan(last_sent, subscribed, init);
        let e = values.last();
        let n = values.len() - 1;
        let p = e.0.1;
        let res = scan(last_sent, subscribed, values);
        assert(res == scan_entry(acc, subscribed, e));
        if subscribes_to(subscribed, p) {
            let skip = match lookup(acc.1, p) {
                Some(v) => same_value(v, e.1),
                None => false,
            };
            if !skip {
                lemma_insert_distinct(acc.1, p, e.1);
                assert(same_value(values[n].1, values[n].1));
                assert forall|j: int| 0 <= j < values.len() && subscribes_to(subscribed, #[trigger] values[j].0.1) implies {
                    &&& lookup(res.1, values[j].0.1) is Some
                    &&& same_value(lookup(res.1, values[j].0.1).unwrap(), values[j].1)
                } by {
                    if values[j].0.1 == p {
                        assert(values[n].0.1 == values[j].0.1);
                        assert(same_value(values[n].1, values[j].1));
                    } else {
                        assert(values[j] == init[j]);
                    }
                }
            } else {
                assert forall|j: int| 0 <= j < values.len() && subscribes_to(subscribed, #[trigger] values[j].0.1) implies {
                    &&& lookup(res.1, values[j].0.1) is Some
                    &&& same_value(lookup(res.1, values[j].0.1).unwrap(), values[j].1)
                } by {
                    if j < n {
                        assert(values[j] == init[j]);
                    } else {
                        let v = lookup(acc.1, p).unwrap();
                        assert(same_value(v, e.1));
                    }
                }
            }
        } else {
            assert forall|j: int| 0 <= j < values.len() && subscribes_to(subscribed, #[trigger] values[j].0.1) implies {
                &&& lookup(res.1, values[j].0.1) is Some
                &&& same_value(lookup(res.1, values[j].0.1).unwrap(), values[j].1)
            } by {
                assert(j < n);
                assert(values[j] == init[j]);
            }
        }
    }
}

/// A scan finds nothing when every subscribed pin id of the store was last sent
/// a value equal to the store's.
proof fn lemma_scan_quiet(
    sent: Seq<(Seq<char>, PinValue)>,
    subscribed: Seq<(Seq<char>, Seq<char>)>,
    values: Seq<((Seq<char>, Seq<char>), PinValue)>,
)
    requires
        forall|j: int| 0 <= j < values.len() && subscribes_to(subscribed, #[trigger] values[j].0.1) ==> {
            &&& lookup(sent, values[j].0.1) is Some
            &&& same_value(lookup(sent, values[j].0.1).unwrap(), values[j].1)
        },
    ensures
        scan(sent, subscribed, values) == (Seq::<(Seq<char>, PinValue)>::empty(), sent),
    decreases values.len(),
{
    if values.len() > 0 {
        let init = values.drop_last();
        assert forall|j: int| 0 <= j < init.len() && subscribes_to(subscribed, #[trigger] init[j].0.1) implies {
            &&& lookup(sent, init[j].0.1) is Some
            &&& same_value(lookup(sent, init[j].0.1).unwrap(), init[j].1)
        } by {
            assert(init[j] == values[j]);
        }
        lemma_scan_quiet(sent, subscribed, init);
        let n = values.len() - 1;
        if subscribes_to(subscribed, values[n].0.1) {
            assert(lookup(sent, values[n].0.1) is Some);
        }
    }
}

/// Collecting the diffs of the same store twice: the second time finds nothing
/// and leaves the sessions as the first left them, when the store holds equal
/// values for equal pin ids that a session subscribes to.
pub proof fn lemma_collect_twice_finds_nothing(
    sessions: Seq<(Seq<char>, SessionStateView)>,
    values: Seq<((Seq<char>, Seq<char>), PinValue)>,
)
    requires
        forall|i: int| 0 <= i < sessions.len() ==> consistent_pin_values(values, #[trigger] sessions[i].1.subscribed_pins),
        forall|i: int| 0 <= i < sessions.len() ==> keys_distinct(#[trigger] sessions[i].1.last_sent_values),
    ensures
        collected(collected(sessions, values).1, values).0.len() == 0,
        collected(collected(sessions, values).1, values).1 == collected(sessions, values).1,
    decreases sessions.len(),
{
    if sessions.len() > 0 {
        let init = sessions.drop_last();
        assert forall|i: int| 0 <= i < init.len() implies keys_distinct(#[trigger] init[i].1.last_sent_values) by {
            assert(init[i] == sessions[i]);
        }
        assert forall|i: int| 0 <= i < init.len() implies consistent_pin_values(values, #[trigger] init[i].1.subscribed_pins) by {
            assert(init[i] == sessions[i]);
        }
        lemma_collect_twice_finds_nothing(init, values);
        let c = collected(init, values);
        let state = sessions.last().1;
        let found = scan(state.last_sent_values, state.subscribed_pins, values);
        let after = SessionStateView { last_sent_values: found.1, ..state };
        let once = collected(sessions, values).1;
        assert(once == c.1.push((sessions.last().0, after)));
        assert(once.drop_last() =~= c.1);
        lemma_scan_covers(state.last_sent_values, state.subscribed_pins, values);
        lemma_scan_quiet(found.1, state.subscribed_pins, values);
    }
}

/// Sessions are independent: subscribing or unsubscribing one session leaves
/// the state of every other session as it was.
pub proof fn lemma_subscriptions_are_per_session(
    before: Seq<(Seq<char>, SessionStateView)>,
    after: Seq<(Seq<char>, SessionStateView)>,
    session_id: Seq<char>,
    pin_ids: Seq<PinId>,
    other: Seq<char>,
)
    requires
        has_key(before, session_id),
        other != session_id,
    ensures
        subscription_added(before, after, session_id, pin_ids) ==> lookup(after, other) == lookup(before, other),
        lookup(subscription_removed(before, session_id, pin_ids), other) == lookup(before, other),
{
    lemma_key_index(before, session_id);
    lemma_key_index(before, other);
    let i = key_index(before, session_id);
    let removed = subscription_removed(before, session_id, pin_ids);
    assert forall|t: Seq<(Seq<char>, SessionStateView)>| #![trigger t.len()]
        t.len() == before.len() && t[i].0 == session_id && (forall|j: int| 0 <= j < before.len() && j != i ==> #[trigger] t[j] == before[j])
        implies lookup(t, other) == lookup(before, other) by {
        lemma_key_index(t, other);
        assert forall|x: int| 0 <= x < t.len() implies (t[x].0 == other <==> #[trigger] before[x].0 == other) by {
            if x == i {
                assert(before[i].0 == session_id);
            }
        }
        if has_key(before, other) {
            let p = key_index(before, other);
            assert(t[p].0 == other);
        }
        if has_key(t, other) {
            let p = key_index(t, other);
            assert(before[p].0 == other);
        }
        assert(key_index(t, other) == key_index(before, other)) by {
            let a = key_index(t, other);
            let b = key_index(before, other);
            if a < b {
                assert(t[a].0 == other);
                assert(before[a].0 == other);
            } else if b < a {
                if b < before.len() {
                    assert(before[b].0 == other);
                    assert(t[b].0 == other);
                }
            }
        }
    }
    assert(removed.len() == before.len());
    assert(removed[i].0 == session_id);
    assert(forall|j: int| 0 <= j < before.len() && j != i ==> #[trigger] removed[j] == before[j]);
}

/// Unsubscribing session `session_id` from pin ids `pin_ids` leaves it
/// subscribed to none of them and remembering no value sent for any of them,
/// while every other subscription and remembered value of it stays and none is
/// added.
pub proof fn lemma_unsubscribe_removes_every_listed_pin(
    before: Seq<(Seq<char>, SessionStateView)>,
    session_id: Seq<char>,
    pin_ids: Seq<PinId>,
)
    requires
        has_key(before, session_id),
    ensures
        has_key(subscription_removed(before, session_id, pin_ids), session_id),
        forall|k: int, j: int| 0 <= k < pin_ids.len() && 0 <= j < lookup(subscription_removed(before, session_id, pin_ids), session_id).unwrap().subscribed_pins.len()
            ==> (#[trigger] lookup(subscription_removed(before, session_id, pin_ids), session_id).unwrap().subscribed_pins[j]).1
            != (#[trigger] pin_ids[k])@,
        forall|k: int| 0 <= k < pin_ids.len() ==> !has_key(
            lookup(subscription_removed(before, session_id, pin_ids), session_id).unwrap().last_sent_values,
            (#[trigger] pin_ids[k])@,
        ),
        forall|p: (Seq<char>, Seq<char>)| #[trigger] lookup(subscription_removed(before, session_id, pin_ids), session_id).unwrap().subscribed_pins.contains(p)
            <==> lookup(before, session_id).unwrap().subscribed_pins.contains(p) && forall|k: int| 0 <= k < pin_ids.len() ==> p.1 != (#[trigger] pin_ids[k])@,
        forall|e: (Seq<char>, PinValue)| #[trigger] lookup(subscription_removed(before, session_id, pin_ids), session_id).unwrap().last_sent_values.contains(e)
            <==> lookup(before, session_id).unwrap().last_sent_values.contains(e) && forall|k: int| 0 <= k < pin_ids.len() ==> e.0 != (#[trigger] pin_ids[k])@,
{
    let after = subscription_removed(before, session_id, pin_ids);
    let targets = pin_views(pin_ids);
    lemma_key_index(before, session_id);
    let i = key_index(before, session_id);
    let old = before[i].1;
    let subs = old.subscribed_pins.filter(untargeted_pin(targets));
    let sent = old.last_sent_values.filter(untargeted_value(targets));
    lemma_key_index(after, session_id);
    assert(after[i].0 == session_id);
    assert(key_index(after, session_id) == i) by {
        let x = key_index(after, session_id);
        if x < i {
            assert(after[x] == before[x]);
        }
    }
    assert(lookup(after, session_id).unwrap() == SessionStateView { subscribed_pins: subs, last_sent_values: sent });
    assert(lookup(before, session_id).unwrap() == old);
    old.subscribed_pins.filter_lemma(untargeted_pin(targets));
    old.last_sent_values.filter_lemma(untargeted_value(targets));
    assert forall|k: int| 0 <= k < pin_ids.len() implies targets[k] == (#[trigger] pin_ids[k])@ by {}
    assert forall|k: int, j: int| 0 <= k < pin_ids.len() && 0 <= j < subs.len() implies (#[trigger] subs[j]).1 != (#[trigger] pin_ids[k])@ by {
        assert((untargeted_pin(targets))(subs[j]));
        assert(targets[k] == pin_ids[k]@);
    }
    assert forall|k: int| 0 <= k < pin_ids.len() implies !has_key(sent, (#[trigger] pin_ids[k])@) by {
        if has_key(sent, pin_ids[k]@) {
            let j = choose|j: int| 0 <= j < sent.len() && #[trigger] sent[j].0 == pin_ids[k]@;
            assert((untargeted_value(targets))(sent[j]));
            assert(targets[k] == pin_ids[k]@);
        }
    }
    assert forall|p: (Seq<char>, Seq<char>)| #[trigger] subs.contains(p)
        <==> old.subscribed_pins.contains(p) && forall|k: int| 0 <= k < pin_ids.len() ==> p.1 != (#[trigger] pin_ids[k])@ by {
        if subs.contains(p) {
            old.subscribed_pins.lemma_filter_contains_rev(untargeted_pin(targets), p);
            let j = choose|j: int| 0 <= j < subs.len() && subs[j] == p;
            assert((untargeted_pin(targets))(subs[j]));
            assert forall|k: int| 0 <= k < pin_ids.len() implies p.1 != (#[trigger] pin_ids[k])@ by {
                assert(targets[k] == pin_ids[k]@);
            }
        }
        if old.subscribed_pins.contains(p) && forall|k: int| 0 <= k < pin_ids.len() ==> p.1 != (#[trigger] pin_ids[k])@ {
            let j = choose|j: int| 0 <= j < old.subscribed_pins.len() && old.subscribed_pins[j] == p;
            assert(!targets.contains(p.1)) by {
                if targets.contains(p.1) {
                    let k = choose|k: int| 0 <= k < targets.len() && targets[k] == p.1;
                    assert(targets[k] == pin_ids[k]@);
                }
            }
            assert((untargeted_pin(targets))(old.subscribed_pins[j]));
        }
    }
    assert forall|e: (Seq<char>, PinValue)| #[trigger] sent.contains(e)
        <==> old.last_sent_values.contains(e) && forall|k: int| 0 <= k < pin_ids.len() ==> e.0 != (#[trigger] pin_ids[k])@ by {
        if sent.contains(e) {
            old.last_sent_values.lemma_filter_contains_rev(untargeted_value(targets), e);
            let j = choose|j: int| 0 <= j < sent.len() && sent[j] == e;
            assert((untargeted_value(targets))(sent[j]));
            assert forall|k: int| 0 <= k < pin_ids.len() implies e.0 != (#[trigger] pin_ids[k])@ by {
                assert(targets[k] == pin_ids[k]@);
            }
        }
        if old.last_sent_values.contains(e) && forall|k: int| 0 <= k < pin_ids.len() ==> e.0 != (#[trigger] pin_ids[k])@ {
            let j = choose|j: int| 0 <= j < old.last_sent_values.len() && old.last_sent_values[j] == e;
            assert(!targets.contains(e.0)) by {
                if targets.contains(e.0) {
                    let k = choose|k: int| 0 <= k < targets.len() && targets[k] == e.0;
                    assert(targets[k] == pin_ids[k]@);
                }
            }
            assert((untargeted_value(targets))(old.last_sent_values[j]));
        }
    }
}

/// Subscribing session `session_id` to pin ids `pin_ids` leaves it subscribed,
/// under the wildcard node id, to every one of them, keeps every subscription it
/// had and the values last sent to it, and changes no other session.
pub proof fn lemma_subscribe_adds_every_listed_pin(
    before: Seq<(Seq<char>, SessionStateView)>,
    after: Seq<(Seq<char>, SessionStateView)>,
    session_id: Seq<char>,
    pin_ids: Seq<PinId>,
)
    requires
        has_key(before, session_id),
        subscription_added(before, after, session_id, pin_ids),
    ensures
        has_key(after, session_id),
        forall|k: int| 0 <= k < pin_ids.len() ==> lookup(after, session_id).unwrap().subscribed_pins.contains(
            (WILDCARD_NODE_ID@, (#[trigger] pin_ids[k])@),
        ),
        forall|p: (Seq<char>, Seq<char>)| #[trigger] lookup(before, session_id).unwrap().subscribed_pins.contains(p)
            ==> lookup(after, session_id).unwrap().subscribed_pins.contains(p),
        lookup(after, session_id).unwrap().last_sent_values == lookup(before, session_id).unwrap().last_sent_values,
        forall|other: Seq<char>| other != session_id ==> #[trigger] lookup(after, other) == lookup(before, other),
{
    lemma_key_index(before, session_id);
    let i = key_index(before, session_id);
    lemma_key_index(after, session_id);
    assert(key_index(after, session_id) == i) by {
        let x = key_index(after, session_id);
        if x < i {
            assert(after[x] == before[x]);
        }
    }
    assert forall|k: int| 0 <= k < pin_ids.len() implies lookup(after, session_id).unwrap().subscribed_pins.contains(
        (WILDCARD_NODE_ID@, (#[trigger] pin_ids[k])@),
    ) by {
        let p = (WILDCARD_NODE_ID@, pin_ids[k]@);
        assert(after[i].1.subscribed_pins.contains(p));
    }
    assert forall|other: Seq<char>| other != session_id implies #[trigger] lookup(after, other) == lookup(before, other) by {
        lemma_key_index(before, other);
        lemma_key_index(after, other);
        assert forall|x: int| 0 <= x < after.len() implies (after[x].0 == other <==> #[trigger] before[x].0 == other) by {
            if x != i {
                assert(after[x] == before[x]);
            }
        }
        let a = key_index(after, other);
        let b = key_index(before, other);
        if a < b {
            assert(after[a].0 == other);
        } else if b < a {
            assert(before[b].0 == other);
        }
        if a < after.len() && a != i {
            assert(after[a] == before[a]);
        }
    }
}

} // verus!
