//! The server's handling of client requests: each request changes the running
//! graph, the runtime state or the subscriptions, and is answered; and the tick
//! step that evaluates the running graph and collects what each session is sent.

use vstd::prelude::*;

use crate::compiler::{accepted_for, carries_evaluators, made_by_factory, refused_by_a_factory, ticked, CompiledGraph, CompiledGraphView, GraphCompiler};
use crate::error::{concat5, AqueductError, AqueductResult, ErrorKind};
use crate::graph::{graph_valid, invalid_graph_error};
use crate::ids::{id_views, text_equal, NodeId};
use crate::keyed::has_key;
use crate::node::NodeEvaluator;
use crate::model::{ClientEnvelope, ClientMessage, Graph, NodeDefView, RuntimeState, ServerEnvelope, ServerMessage, PROTOCOL_VERSION};
use crate::patch::{all_accepted, applied, batch_refused, step_accepted_at, compiled_over, first_refused, mutation_error, patch_ok, property_only, property_target, GraphPatcher};
use crate::registry::{def_views, lists_defs, NodeRegistry};
use crate::runtime::{LiveGraph, TickDriver};
use crate::session::{collected, diff_views, session_not_found_message, subscription_added, subscription_removed, SessionManager, SessionPinDiff, SessionStateView};

verus! {

/// The tick rate a dispatcher starts with: the bit pattern of the `f64` 60.0.
pub const DEFAULT_TICK_RATE_HZ: u64 = 0x404E_0000_0000_0000;

/// Whether `hz`, the bit pattern of an `f64`, is a finite rate above zero: a
/// positive sign, not zero, and an exponent below that of infinities and NaNs.
pub open spec fn tick_rate_valid(hz: u64) -> bool {
    1 <= hz <= 0x7FEF_FFFF_FFFF_FFFF
}

/// The message of a protocol version that is not the server's.
pub open spec fn version_mismatch_message(client: Seq<char>) -> Seq<char> {
    "プロトコルバージョンが一致しません: client="@ + client + ", server="@ + PROTOCOL_VERSION@
}

/// `body` answers the error `e`: its code and message, and no node.
pub open spec fn is_error_response(body: ServerMessage, e: AqueductError) -> bool {
    body matches ServerMessage::Error { code, message, node_id } && code@ == e.spec_code()@ && message@
        == e.spec_message() && node_id is None
}

/// `response` answers a compilation with the evaluation order of `graph`.
pub open spec fn is_compiled_response(response: Option<ServerMessage>, graph: CompiledGraphView) -> bool {
    response matches Some(ServerMessage::GraphCompiled { eval_order, warnings }) && id_views(eval_order@)
        == graph.eval_order && warnings@.len() == 0
}

/// The model of a dispatcher.
pub struct DispatcherView {
    /// The running graph.
    pub graph: CompiledGraphView,
    /// The registered node types.
    pub defs: Seq<NodeDefView>,
    /// The sessions.
    pub sessions: Seq<(Seq<char>, SessionStateView)>,
    /// The runtime state.
    pub runtime_state: RuntimeState,
    /// The tick rate, as the bit pattern of an `f64`.
    pub tick_rate_hz: u64,
}

/// After patching `before` into `after` by `mutations`: each node in `affected`
/// or new runs an evaluator that the factory of its type in `registry` may make for
/// the node's properties, and each other node the evaluator it ran before.
pub open spec fn patched_evaluators(
    before: DispatcherView,
    after: DispatcherView,
    mutations: Seq<crate::model::GraphMutation>,
    registry: NodeRegistry,
    before_evaluators: Seq<Box<dyn NodeEvaluator>>,
    after_evaluators: Seq<Box<dyn NodeEvaluator>>,
    affected: Seq<Seq<char>>,
) -> bool {
    &&& forall|i: int| 0 <= i < after.graph.eval_order.len() && (affected.contains(after.graph.eval_order[i])
        || !before.graph.eval_order.contains(after.graph.eval_order[i])) ==> #[trigger] made_by_factory(
        registry,
        applied(before.graph.graph, mutations),
        after.graph.eval_order[i],
        after_evaluators,
        i,
    )
    &&& forall|i: int, j: int| 0 <= i < after_evaluators.len() && 0 <= j < before_evaluators.len()
        && !affected.contains(after.graph.eval_order[i]) && before.graph.eval_order[j] == after.graph.eval_order[i]
        ==> #[trigger] after_evaluators[i] == #[trigger] before_evaluators[j]
}

/// Where the evaluators of the running graph come from after handling `message`,
/// with result `r`: a graph loaded or compiled runs, for each node, an evaluator
/// that the factory of its type in `registry` may make for the node's properties;
/// after a patch that does more than set properties, each node that the patch
/// affects or adds runs such an evaluator, and each other node the one it ran
/// before; of a batch of property changes, handed in order to the running graph
/// `before_graph`, one that succeeds had each change reach its node's evaluator
/// and be accepted there, and one that fails stopped with the error of the first
/// change refused.
pub open spec fn evaluators_handled(
    before_graph: CompiledGraph,
    before: DispatcherView,
    after: DispatcherView,
    message: ClientMessage,
    r: AqueductResult<Option<ServerMessage>>,
    registry: NodeRegistry,
    before_evaluators: Seq<Box<dyn NodeEvaluator>>,
    after_evaluators: Seq<Box<dyn NodeEvaluator>>,
) -> bool {
    match message {
        ClientMessage::GraphLoad { graph } => r is Ok ==> forall|i: int| 0 <= i < after.graph.eval_order.len()
            ==> #[trigger] made_by_factory(registry, graph@, after.graph.eval_order[i], after_evaluators, i),
        ClientMessage::GraphCompile => r is Ok ==> forall|i: int| 0 <= i < after.graph.eval_order.len()
            ==> #[trigger] made_by_factory(registry, before.graph.graph, after.graph.eval_order[i], after_evaluators, i),
        ClientMessage::GraphMutate { mutations } => {
            &&& mutations@.len() > 0 && !property_only(mutations@) && r is Ok ==> exists|affected: Seq<Seq<char>>|
                #[trigger] patched_evaluators(before, after, mutations@, registry, before_evaluators, after_evaluators, affected)
            &&& mutations@.len() > 0 && property_only(mutations@) ==> (r matches Err(e) ==> batch_refused(
                before_graph,
                mutations@,
                e,
            ))
            &&& mutations@.len() > 0 && property_only(mutations@) && r is Ok ==> forall|k: int| 0 <= k < mutations@.len()
                ==> #[trigger] step_accepted_at(before_graph, mutations@, k)
        },
        _ => true,
    }
}

/// What handling `message` from session `session_id` does, from `before` to
/// `after`, with result `r`, when the node types are those of `registry`.
pub open spec fn message_handled(
    before: DispatcherView,
    after: DispatcherView,
    session_id: Seq<char>,
    message: ClientMessage,
    r: AqueductResult<Option<ServerMessage>>,
    registry: NodeRegistry,
) -> bool {
    &&& after.defs == before.defs
    &&& match message {
        ClientMessage::Handshake { protocol_version } => {
            &&& after == before
            &&& if protocol_version@ == PROTOCOL_VERSION@ {
                r matches Ok(Some(ServerMessage::Handshake { protocol_version: v })) && v@ == PROTOCOL_VERSION@
            } else {
                r matches Err(e) && e.spec_kind() == ErrorKind::Server && e.spec_code()@
                    == "SERVER_PROTOCOL_VERSION_MISMATCH"@ && e.spec_message() == version_mismatch_message(
                    protocol_version@,
                )
            }
        },
        ClientMessage::GraphMutate { mutations } => {
            &&& after == (DispatcherView { graph: after.graph, ..before })
            &&& r matches Ok(response) ==> is_compiled_response(response, after.graph) && exists|affected: Seq<Seq<char>>, rev: u64|
                #[trigger] patch_ok(before.graph, after.graph, mutations@, before.defs, affected, rev)
            &&& mutations@.len() > 0 && property_only(mutations@) && (exists|k: Seq<char>| property_target(mutations@, k)
                && !has_key(before.graph.graph.nodes, k)) ==> r is Err
            &&& mutations@.len() > 0 && !property_only(mutations@) ==> {
                &&& r is Err ==> after.graph == before.graph
                &&& !all_accepted(before.graph.graph, mutations@) ==> (r matches Err(e) && exists|i: int| {
                    &&& #[trigger] first_refused(before.graph.graph, mutations@, i)
                    &&& e.spec_kind() == ErrorKind::Patch
                    &&& mutation_error(applied(before.graph.graph, mutations@.take(i)), mutations@[i]) == Some((e.spec_code()@, e.spec_message()))
                })
                &&& all_accepted(before.graph.graph, mutations@) && !graph_valid(applied(before.graph.graph, mutations@), before.defs)
                    ==> (r matches Err(e) && invalid_graph_error(applied(before.graph.graph, mutations@), before.defs, e))
                &&& all_accepted(before.graph.graph, mutations@) && graph_valid(applied(before.graph.graph, mutations@), before.defs)
                    && r is Err ==> (r matches Err(e) && refused_by_a_factory(registry, applied(before.graph.graph, mutations@), e))
                &&& r is Ok ==> forall|i: int| 0 <= i < after.graph.eval_order.len() ==> #[trigger] accepted_for(
                    registry,
                    applied(before.graph.graph, mutations@),
                    after.graph.eval_order[i],
                )
            }
        },
        ClientMessage::GraphLoad { graph } => {
            &&& after == (DispatcherView { graph: after.graph, ..before })
            &&& r matches Ok(response) ==> is_compiled_response(response, after.graph) && compiled_over(
                before.graph,
                after.graph,
                graph@,
                before.defs,
                Seq::empty(),
            )
            &&& r is Err ==> after.graph == before.graph
            &&& !graph_valid(graph@, before.defs) ==> (r matches Err(e) && invalid_graph_error(graph@, before.defs, e))
            &&& graph_valid(graph@, before.defs) && r is Err ==> (r matches Err(e) && refused_by_a_factory(registry, graph@, e))
            &&& r is Ok ==> forall|i: int| 0 <= i < after.graph.eval_order.len() ==> #[trigger] accepted_for(
                registry,
                graph@,
                after.graph.eval_order[i],
            )
        },
        ClientMessage::GraphSave => {
            &&& after == before
            &&& r matches Err(e) && e.spec_kind() == ErrorKind::Server && e.spec_code()@ == "SERVER_GRAPH_SAVE_UNSUPPORTED"@
                && e.spec_message() == "`graph.save` は未サポートです"@
        },
        ClientMessage::GraphCompile => {
            &&& after == (DispatcherView { graph: after.graph, ..before })
            &&& r matches Ok(response) ==> is_compiled_response(response, after.graph) && compiled_over(
                before.graph,
                after.graph,
                before.graph.graph,
                before.defs,
                Seq::empty(),
            )
            &&& r is Err ==> after.graph == before.graph
            &&& !graph_valid(before.graph.graph, before.defs) ==> (r matches Err(e) && invalid_graph_error(
                before.graph.graph,
                before.defs,
                e,
            ))
            &&& graph_valid(before.graph.graph, before.defs) && r is Err ==> (r matches Err(e) && refused_by_a_factory(
                registry,
                before.graph.graph,
                e,
            ))
            &&& r is Ok ==> forall|i: int| 0 <= i < after.graph.eval_order.len() ==> #[trigger] accepted_for(
                registry,
                before.graph.graph,
                after.graph.eval_order[i],
            )
        },
        ClientMessage::RuntimeStart => {
            &&& after == (DispatcherView { runtime_state: RuntimeState::Running, ..before })
            &&& r matches Ok(Some(ServerMessage::RuntimeState { state })) && state == RuntimeState::Running
        },
        ClientMessage::RuntimeStop => {
            &&& after == (DispatcherView { runtime_state: RuntimeState::Stopped, ..before })
            &&& r matches Ok(Some(ServerMessage::RuntimeState { state })) && state == RuntimeState::Stopped
        },
        ClientMessage::RuntimeSetTickRate { hz } => if tick_rate_valid(hz) {
            &&& after == (DispatcherView { tick_rate_hz: hz, ..before })
            &&& r matches Ok(Some(ServerMessage::RuntimeState { state })) && state == before.runtime_state
        } else {
            &&& after == before
            &&& r matches Err(e) && e.spec_kind() == ErrorKind::Server && e.spec_code()@ == "SERVER_INVALID_TICK_RATE"@
                && e.spec_message() == "tick レートが不正です"@
        },
        ClientMessage::RegistryList => {
            &&& after == before
            &&& r matches Ok(Some(ServerMessage::RegistryNodes { defs })) && lists_defs(def_views(defs@), before.defs)
        },
        ClientMessage::PinSubscribe { pin_ids } => if has_key(before.sessions, session_id) {
            &&& after == (DispatcherView { sessions: after.sessions, ..before })
            &&& subscription_added(before.sessions, after.sessions, session_id, pin_ids@)
            &&& r matches Ok(None)
        } else {
            &&& after == before
            &&& r matches Err(e) && e.spec_kind() == ErrorKind::Server && e.spec_code()@
                == "SESSION_MANAGER_SESSION_NOT_FOUND"@ && e.spec_message() == session_not_found_message(session_id)
        },
        ClientMessage::PinUnsubscribe { pin_ids } => if has_key(before.sessions, session_id) {
            &&& after == (DispatcherView { sessions: subscription_removed(before.sessions, session_id, pin_ids@), ..before })
            &&& r matches Ok(None)
        } else {
            &&& after == before
            &&& r matches Err(e) && e.spec_kind() == ErrorKind::Server && e.spec_code()@
                == "SESSION_MANAGER_SESSION_NOT_FOUND"@ && e.spec_message() == session_not_found_message(session_id)
        },
    }
}

/// Handles the requests of client sessions against the running graph.
pub struct MessageDispatcher {
    live_graph: LiveGraph,
    registry: NodeRegistry,
    session_manager: SessionManager,
    runtime_state: RuntimeState,
    tick_rate_hz: u64,
}

impl View for MessageDispatcher {
    type V = DispatcherView;

    closed spec fn view(&self) -> DispatcherView {
        DispatcherView {
            graph: self.live_graph.graph()@,
            defs: self.registry@,
            sessions: self.session_manager@,
            runtime_state: self.runtime_state,
            tick_rate_hz: self.tick_rate_hz,
        }
    }
}

/// Copies of `ids`.
fn copy_ids(ids: &[NodeId]) -> (r: Vec<NodeId>)
    ensures
        id_views(r@) == id_views(ids@),
{
    let mut out: Vec<NodeId> = Vec::new();
    let mut i: usize = 0;
    while i < ids.len()
        invariant
            i <= ids@.len(),
            out@.len() == i,
            forall|j: int| 0 <= j < i ==> (#[trigger] out@[j])@ == ids@[j]@,
        decreases ids@.len() - i,
    {
        out.push(ids[i].clone());
        i = i + 1;
    }
    assert(id_views(out@) =~= id_views(ids@));
    out
}

/// The response to an error: its code and message.
fn server_error_message(error: &AqueductError) -> (r: ServerMessage)
    ensures
        is_error_response(r, *error),
{
    ServerMessage::Error {
        code: String::from_str(error.code()),
        message: String::from_str(error.message()),
        node_id: None,
    }
}

impl MessageDispatcher {
    /// The registered node types, with their factories.
    pub closed spec fn registry(&self) -> NodeRegistry {
        self.registry
    }

    /// The registry's view is the dispatcher's definitions.
    pub proof fn lemma_registry_defs(&self)
        ensures
            self.registry()@ == self@.defs,
    {
    }

    /// The evaluators of the running graph.
    pub closed spec fn evaluators(&self) -> Seq<Box<dyn crate::node::NodeEvaluator>> {
        self.live_graph.graph().evaluators()
    }

    /// The running graph.
    pub closed spec fn running(&self) -> CompiledGraph {
        self.live_graph.graph()
    }

    /// The running graph, the registry and the sessions are well formed.
    pub closed spec fn wf(&self) -> bool {
        &&& self.live_graph.graph().wf()
        &&& self.registry.wf()
        &&& self.session_manager.wf()
    }

    /// A dispatcher for `live_graph`, compiling against `registry`, with the
    /// sessions of `session_manager`; the runtime is stopped and the tick rate is
    /// the default.
    pub fn new(live_graph: LiveGraph, registry: NodeRegistry, session_manager: SessionManager) -> (r: Self)
        requires
            live_graph.graph().wf(),
            registry.wf(),
            session_manager.wf(),
        ensures
            r.wf(),
            r@ == (DispatcherView {
                graph: live_graph.graph()@,
                defs: registry@,
                sessions: session_manager@,
                runtime_state: RuntimeState::Stopped,
                tick_rate_hz: DEFAULT_TICK_RATE_HZ,
            }),
    {
        MessageDispatcher {
            live_graph,
            registry,
            session_manager,
            runtime_state: RuntimeState::Stopped,
            tick_rate_hz: DEFAULT_TICK_RATE_HZ,
        }
    }

    /// Handles one request and wraps the answer with the request id and the graph
    /// revision after it; an error becomes an error response. Subscriptions get no
    /// answer.
    pub fn dispatch(&mut self, session_id: &str, envelope: ClientEnvelope) -> (r: AqueductResult<Option<ServerEnvelope>>)
        requires
            old(self).wf(),
        ensures
            final(self).wf(),
            r matches Ok(response) && exists|handled: AqueductResult<Option<ServerMessage>>| {
                &&& #[trigger] message_handled(old(self)@, final(self)@, session_id@, envelope.body, handled, old(self).registry())
                &&& evaluators_handled(
                    old(self).running(),
                    old(self)@,
                    final(self)@,
                    envelope.body,
                    handled,
                    old(self).registry(),
                    old(self).evaluators(),
                    final(self).evaluators(),
                )
                &&& match handled {
                    Ok(None) => response is None,
                    Ok(Some(body)) => response == Some(
                        ServerEnvelope { request_id: Some(envelope.request_id), body, graph_rev: final(self)@.graph.graph_rev },
                    ),
                    Err(e) => response matches Some(env) && env.request_id == Some(envelope.request_id)
                        && env.graph_rev == final(self)@.graph.graph_rev && is_error_response(env.body, e),
                }
            },
    {
        let request_id = envelope.request_id;
        let ghost message = envelope.body;
        let handled = self.handle_message(session_id, envelope.body);
        let ghost h = handled;
        let body = match handled {
            Ok(Some(body)) => body,
            Ok(None) => {
                assert(message_handled(old(self)@, self@, session_id@, message, h, old(self).registry()));
                assert(evaluators_handled(old(self).running(), old(self)@, self@, message, h, old(self).registry(), old(self).evaluators(), self.evaluators()));
                return Ok(None);
            },
            Err(error) => server_error_message(&error),
        };
        let graph_rev = match self.current_graph_rev() {
            Ok(rev) => rev,
            Err(e) => {
                return Err(e);
            },
        };
        let response = Some(ServerEnvelope { request_id: Some(request_id), body, graph_rev });
        assert(message_handled(old(self)@, self@, session_id@, message, h, old(self).registry()));
        assert(evaluators_handled(old(self).running(), old(self)@, self@, message, h, old(self).registry(), old(self).evaluators(), self.evaluators()));
        Ok(response)
    }

    /// The running graph.
    pub fn live_graph(&self) -> (r: &LiveGraph)
        ensures
            r.graph()@ == self@.graph,
            self.wf() ==> r.graph().wf(),
    {
        &self.live_graph
    }

    /// The sessions.
    pub fn session_manager(&self) -> (r: &SessionManager)
        ensures
            r@ == self@.sessions,
            self.wf() ==> r.wf(),
    {
        &self.session_manager
    }

    /// Adds a session (see `SessionManager::add_session`).
    pub fn add_session(&mut self, session_id: &str) -> (r: AqueductResult<()>)
        requires
            old(self).wf(),
        ensures
            final(self).wf(),
            r is Ok,
            final(self)@ == (DispatcherView {
                sessions: crate::keyed::keyed_insert(old(self)@.sessions, session_id@, crate::session::fresh_session()),
                ..old(self)@
            }),
    {
        self.session_manager.add_session(session_id)
    }

    /// Removes a session (see `SessionManager::remove_session`).
    pub fn remove_session(&mut self, session_id: &str) -> (r: AqueductResult<()>)
        requires
            old(self).wf(),
        ensures
            final(self).wf(),
            r is Ok,
            final(self)@ == (DispatcherView {
                sessions: crate::keyed::keyed_remove(old(self)@.sessions, session_id@),
                ..old(self)@
            }),
    {
        self.session_manager.remove_session(session_id)
    }

    /// Whether the runtime is running.
    pub fn is_runtime_running(&self) -> (r: bool)
        ensures
            r == (self@.runtime_state == RuntimeState::Running),
    {
        match self.runtime_state {
            RuntimeState::Running => true,
            _ => false,
        }
    }

    /// Puts the runtime in the error state.
    pub fn mark_runtime_error(&mut self)
        ensures
            final(self)@ == (DispatcherView { runtime_state: RuntimeState::Error, ..old(self)@ }),
            old(self).wf() ==> final(self).wf(),
    {
        self.runtime_state = RuntimeState::Error;
    }

    /// The tick rate, as the bit pattern of an `f64`.
    pub fn tick_rate_hz(&self) -> (r: AqueductResult<u64>)
        ensures
            r == Ok::<u64, AqueductError>(self@.tick_rate_hz),
    {
        Ok(self.tick_rate_hz)
    }

    /// The revision of the running graph.
    pub fn current_graph_rev(&self) -> (r: AqueductResult<u64>)
        ensures
            r == Ok::<u64, AqueductError>(self@.graph.graph_rev),
    {
        Ok(self.live_graph.snapshot().graph_rev())
    }

    /// The runtime state, as reported to clients.
    fn runtime_state_message(&self) -> (r: RuntimeState)
        ensures
            r == self@.runtime_state,
    {
        self.runtime_state
    }

    /// Compiles `graph` under the next revision, carries over the values of the
    /// running graph's store, and runs the result; returns its evaluation order.
    fn compile_and_replace_graph(&mut self, graph: &Graph) -> (r: AqueductResult<Vec<NodeId>>)
        requires
            old(self).wf(),
        ensures
            final(self).wf(),
            final(self)@ == (DispatcherView { graph: final(self)@.graph, ..old(self)@ }),
            r matches Ok(order) ==> id_views(order@) == final(self)@.graph.eval_order && compiled_over(
                old(self)@.graph,
                final(self)@.graph,
                graph@,
                old(self)@.defs,
                Seq::empty(),
            ),
            r is Err ==> final(self)@ == old(self)@,
            !graph_valid(graph@, old(self)@.defs) ==> (r matches Err(e) && invalid_graph_error(graph@, old(self)@.defs, e)),
            graph_valid(graph@, old(self)@.defs) && r is Err ==> (r matches Err(e) && refused_by_a_factory(old(self).registry(), graph@, e)),
            r is Ok ==> forall|i: int| 0 <= i < final(self)@.graph.eval_order.len() ==> #[trigger] accepted_for(
                old(self).registry(),
                graph@,
                final(self)@.graph.eval_order[i],
            ),
            r is Ok ==> forall|i: int| 0 <= i < final(self)@.graph.eval_order.len() ==> #[trigger] made_by_factory(
                old(self).registry(),
                graph@,
                final(self)@.graph.eval_order[i],
                final(self).evaluators(),
                i,
            ),
    {
        let current_rev = self.live_graph.snapshot().graph_rev();
        let next_rev = current_rev.saturating_add(1);
        let compiler = GraphCompiler::new(&self.registry);
        let mut compiled = match compiler.compile(graph, next_rev) {
            Ok(c) => c,
            Err(e) => {
                return Err(e);
            },
        };
        let ghost c0 = compiled@;
        let ghost ce = compiled.evaluators();
        let previous_store = self.live_graph.snapshot().pin_store_snapshot();
        let unaffected: Vec<NodeId> = Vec::new();
        compiled.copy_pin_values_from(&previous_store, unaffected.as_slice());
        let eval_order = copy_ids(compiled.eval_order());
        proof {
            assert(id_views(unaffected@) =~= Seq::<Seq<char>>::empty());
            assert(crate::compiler::compiled_from(c0, graph@, self.registry@, crate::patch::next_revision(current_rev)));
        }
        self.live_graph.replace(compiled);
        proof {
            assert forall|i: int| 0 <= i < self@.graph.eval_order.len() implies #[trigger] made_by_factory(
                old(self).registry(),
                graph@,
                self@.graph.eval_order[i],
                self.evaluators(),
                i,
            ) by {
                assert(made_by_factory(old(self).registry(), graph@, c0.eval_order[i], ce, i));
            }
        }
        Ok(eval_order)
    }

    /// Handles one request (see `message_handled`).
    fn handle_message(&mut self, session_id: &str, message: ClientMessage) -> (r: AqueductResult<Option<ServerMessage>>)
        requires
            old(self).wf(),
        ensures
            final(self).wf(),
            message_handled(old(self)@, final(self)@, session_id@, message, r, old(self).registry()),
            evaluators_handled(old(self).running(), old(self)@, final(self)@, message, r, old(self).registry(), old(self).evaluators(), final(self).evaluators()),
    {
        match message {
            ClientMessage::Handshake { protocol_version } => {
                if !text_equal(protocol_version.as_str(), PROTOCOL_VERSION) {
                    proof {
                        reveal_strlit("");
                        assert(version_mismatch_message(protocol_version@) =~= "プロトコルバージョンが一致しません: client="@ + protocol_version@ + ", server="@ + PROTOCOL_VERSION@ + ""@);
                    }
                    return Err(AqueductError::new(
                        ErrorKind::Server,
                        "SERVER_PROTOCOL_VERSION_MISMATCH",
                        concat5(
                            "プロトコルバージョンが一致しません: client=",
                            protocol_version.as_str(),
                            ", server=",
                            PROTOCOL_VERSION,
                            "",
                        ),
                    ));
                }
                Ok(Some(ServerMessage::Handshake { protocol_version: String::from_str(PROTOCOL_VERSION) }))
            },
            ClientMessage::GraphMutate { mutations } => {
                let patcher = GraphPatcher::new(&self.registry);
                let ghost lg0 = self.live_graph.graph();
                let report = match patcher.patch_live_graph(&mut self.live_graph, mutations.as_slice()) {
                    Ok(report) => report,
                    Err(e) => {
                        return Err(e);
                    },
                };
                proof {
                    let aff = id_views(report.affected_nodes@);
                    if mutations@.len() > 0 && !property_only(mutations@) {
                        assert(carries_evaluators(lg0, self.live_graph.graph(), aff));
                        assert(patched_evaluators(
                            old(self)@,
                            self@,
                            mutations@,
                            old(self).registry(),
                            old(self).evaluators(),
                            self.evaluators(),
                            aff,
                        ));
                    }
                }
                let eval_order = copy_ids(self.live_graph.snapshot().eval_order());
                Ok(Some(ServerMessage::GraphCompiled { eval_order, warnings: Vec::new() }))
            },
            ClientMessage::GraphLoad { graph } => {
                let eval_order = match self.compile_and_replace_graph(&graph) {
                    Ok(order) => order,
                    Err(e) => {
                        return Err(e);
                    },
                };
                Ok(Some(ServerMessage::GraphCompiled { eval_order, warnings: Vec::new() }))
            },
            ClientMessage::GraphSave => Err(AqueductError::new(
                ErrorKind::Server,
                "SERVER_GRAPH_SAVE_UNSUPPORTED",
                String::from_str("`graph.save` は未サポートです"),
            )),
            ClientMessage::GraphCompile => {
                let graph = self.live_graph.snapshot().source_graph().duplicate();
                let eval_order = match self.compile_and_replace_graph(&graph) {
                    Ok(order) => order,
                    Err(e) => {
                        return Err(e);
                    },
                };
                Ok(Some(ServerMessage::GraphCompiled { eval_order, warnings: Vec::new() }))
            },
            ClientMessage::RuntimeStart => {
                self.runtime_state = RuntimeState::Running;
                Ok(Some(ServerMessage::RuntimeState { state: RuntimeState::Running }))
            },
            ClientMessage::RuntimeStop => {
                self.runtime_state = RuntimeState::Stopped;
                Ok(Some(ServerMessage::RuntimeState { state: RuntimeState::Stopped }))
            },
            ClientMessage::RuntimeSetTickRate { hz } => {
                if hz == 0 || hz > 0x7FEF_FFFF_FFFF_FFFF {
                    return Err(AqueductError::new(
                        ErrorKind::Server,
                        "SERVER_INVALID_TICK_RATE",
                        String::from_str("tick レートが不正です"),
                    ));
                }
                self.tick_rate_hz = hz;
                Ok(Some(ServerMessage::RuntimeState { state: self.runtime_state_message() }))
            },
            ClientMessage::RegistryList => Ok(Some(ServerMessage::RegistryNodes { defs: self.registry.list_node_defs() })),
            ClientMessage::PinSubscribe { pin_ids } => {
                match self.session_manager.subscribe_pins(session_id, pin_ids.as_slice()) {
                    Ok(()) => Ok(None),
                    Err(e) => Err(e),
                }
            },
            ClientMessage::PinUnsubscribe { pin_ids } => {
                match self.session_manager.unsubscribe_pins(session_id, pin_ids.as_slice()) {
                    Ok(()) => Ok(None),
                    Err(e) => Err(e),
                }
            },
        }
    }
}

/// What one turn of the tick loop produced: each session's changed pin values,
/// and the graph revision they belong to.
#[derive(Debug, PartialEq)]
pub struct TickResult {
    /// The diffs, one per session with changes.
    pub pin_diffs: Vec<SessionPinDiff>,
    /// The graph revision.
    pub graph_rev: u64,
}

/// One turn of the tick loop: nothing while the runtime is not running;
/// otherwise the next tick of the running graph is evaluated and each session's
/// changed pin values are collected from the store. A failed tick puts the runtime
/// in the error state.
pub fn run_tick_and_collect_diffs(driver: &mut TickDriver, dispatcher: &mut MessageDispatcher) -> (r: AqueductResult<Option<TickResult>>)
    requires
        old(dispatcher).wf(),
    ensures
        final(dispatcher).wf(),
        final(dispatcher)@.defs == old(dispatcher)@.defs,
        final(dispatcher)@.tick_rate_hz == old(dispatcher)@.tick_rate_hz,
        old(dispatcher)@.runtime_state != RuntimeState::Running ==> (r matches Ok(None) && final(dispatcher)@ == old(
            dispatcher,
        )@ && final(driver).spec_next_tick() == old(driver).spec_next_tick()),
        old(dispatcher)@.runtime_state == RuntimeState::Running ==> {
            &&& r is Err ==> final(dispatcher)@.runtime_state == RuntimeState::Error
                && final(dispatcher)@.sessions == old(dispatcher)@.sessions
                && final(driver).spec_next_tick() == old(driver).spec_next_tick()
            &&& r matches Ok(found) ==> (found matches Some(result) && {
                let after = final(dispatcher)@;
                let c = collected(old(dispatcher)@.sessions, after.graph.pin_store.values);
                &&& after.runtime_state == RuntimeState::Running
                &&& after.graph.pin_store.events.len() == 0
                &&& after.graph.graph == old(dispatcher)@.graph.graph
                &&& after.graph.eval_order == old(dispatcher)@.graph.eval_order
                &&& after.graph.graph_rev == old(dispatcher)@.graph.graph_rev
                &&& ticked(old(dispatcher)@.graph, old(dispatcher).evaluators(), after.graph, old(driver).spec_next_tick())
                &&& result.graph_rev == after.graph.graph_rev
                &&& diff_views(result.pin_diffs@) == c.0
                &&& after.sessions == c.1
                &&& final(driver).spec_next_tick() == crate::patch::next_revision(old(driver).spec_next_tick())
            })
        },
{
    if !dispatcher.is_runtime_running() {
        return Ok(None);
    }
    match driver.run_tick(&mut dispatcher.live_graph) {
        Ok(_tick) => {},
        Err(e) => {
            dispatcher.mark_runtime_error();
            return Err(e);
        },
    }
    let pin_store = dispatcher.live_graph.snapshot().pin_store_snapshot();
    let pin_diffs = match dispatcher.session_manager.collect_pin_diffs(&pin_store) {
        Ok(diffs) => diffs,
        Err(e) => {
            dispatcher.mark_runtime_error();
            return Err(e);
        },
    };
    let graph_rev = match dispatcher.current_graph_rev() {
        Ok(rev) => rev,
        Err(e) => {
            return Err(e);
        },
    };
    Ok(Some(TickResult { pin_diffs, graph_rev }))
}

} // verus!
