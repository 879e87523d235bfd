//! The command mediator: applies client operations to the workspace and
//! returns, in order, the change events each one produces, closed by the
//! operation's `Sync` barrier.
use vstd::prelude::*;
use crate::ids::{ModuleId, InputId, OutputId, LineType, SessionId, ClientSequence, OpClock};
use crate::workspace::{Workspace, WindowGeometry, ModuleView, touches, touching_inputs, untouched};
use crate::persist::typechecks;

verus! {

/// An edit requested by a client.
#[derive(Clone, Debug, PartialEq)]
pub enum ClientOp<P> {
    CreateModule(P, WindowGeometry),
    UpdateModuleParams(ModuleId, P),
    UpdateWindowGeometry(ModuleId, WindowGeometry),
    DeleteModule(ModuleId),
    CreateConnection(InputId, OutputId),
    DeleteConnection(InputId),
}

/// A client operation with the client's sequence number.
#[derive(Clone, Debug, PartialEq)]
pub struct ClientMessage<P> {
    pub sequence: ClientSequence,
    pub op: ClientOp<P>,
}

/// An authoritative change of the workspace.
#[derive(Clone, Debug, PartialEq)]
pub enum ServerUpdate<P, I> {
    CreateModule {
        id: ModuleId,
        params: P,
        geometry: WindowGeometry,
        indication: I,
        inputs: Vec<LineType>,
        outputs: Vec<LineType>,
    },
    UpdateModuleParams(ModuleId, P),
    UpdateModuleIndication(ModuleId, I),
    UpdateWindowGeometry(ModuleId, WindowGeometry),
    DeleteModule(ModuleId),
    CreateConnection(InputId, OutputId),
    DeleteConnection(InputId),
}

/// One entry of the event stream sent to every session.
#[derive(Clone, Debug, PartialEq)]
pub enum EngineEvent<P, I> {
    Sync(OpClock),
    ServerUpdate(ServerUpdate<P, I>),
}

/// What constructing a module from its parameters gave: its first
/// indication and its terminal types.
#[derive(Clone, Debug, PartialEq)]
pub struct CreatedModule<I> {
    pub indication: I,
    pub inputs: Vec<LineType>,
    pub outputs: Vec<LineType>,
}

/// The `DeleteConnection` events for a list of inputs, in order.
pub open spec fn delete_events<P, I>(inputs: Seq<InputId>) -> Seq<EngineEvent<P, I>> {
    inputs.map_values(|i: InputId| EngineEvent::ServerUpdate(ServerUpdate::DeleteConnection(i)))
}

/// A full copy of the workspace, handed to a session when it connects.
#[derive(Clone, Debug, PartialEq)]
pub struct WorkspaceState<P, I> {
    pub modules: Vec<(ModuleId, P)>,
    pub geometry: Vec<(ModuleId, WindowGeometry)>,
    pub indications: Vec<(ModuleId, I)>,
    pub connections: Vec<(InputId, OutputId)>,
    pub inputs: Vec<(ModuleId, Vec<LineType>)>,
    pub outputs: Vec<(ModuleId, Vec<LineType>)>,
}

/// `state` copies `ws` module by module, in the workspace's order, and
/// holds its connections.
pub open spec fn is_snapshot<P: Clone, I: Clone>(ws: Workspace<P, I>, state: WorkspaceState<P, I>) -> bool {
    &&& state.modules@.len() == ws.modules@.len()
    &&& state.geometry@.len() == ws.modules@.len()
    &&& state.indications@.len() == ws.modules@.len()
    &&& state.inputs@.len() == ws.modules@.len()
    &&& state.outputs@.len() == ws.modules@.len()
    &&& state.connections@ == ws.connections@
    &&& forall|k: int|
        0 <= k < ws.modules@.len() ==> {
            let m = #[trigger] ws.modules@[k];
            &&& state.modules@[k].0 == m.id && cloned(m.params, state.modules@[k].1)
            &&& state.geometry@[k] == (m.id, m.geometry)
            &&& state.indications@[k].0 == m.id && cloned(m.indication, state.indications@[k].1)
            &&& state.inputs@[k].0 == m.id && state.inputs@[k].1@ == m.inputs@
            &&& state.outputs@[k].0 == m.id && state.outputs@[k].1@ == m.outputs@
        }
}

/// The entries of `s` whose module `ws` holds, in order.
pub open spec fn present_entries<P, I>(ws: Workspace<P, I>, s: Seq<(ModuleId, I)>) -> Seq<(ModuleId, I)>
    decreases s.len(),
{
    if s.len() == 0 {
        Seq::empty()
    } else if ws.has_module(s.last().0) {
        present_entries(ws, s.drop_last()).push(s.last())
    } else {
        present_entries(ws, s.drop_last())
    }
}

/// Event `e` announces the indication of `entry` (as a clone).
pub open spec fn announces<P, I: Clone>(e: EngineEvent<P, I>, entry: (ModuleId, I)) -> bool {
    e matches EngineEvent::ServerUpdate(ServerUpdate::UpdateModuleIndication(x, v)) && x == entry.0
        && cloned(entry.1, v)
}

/// The indication of the last entry for module `x` in `s`, if any.
pub open spec fn last_indication<I>(s: Seq<(ModuleId, I)>, x: ModuleId) -> Option<I>
    decreases s.len(),
{
    if s.len() == 0 {
        None
    } else if s.last().0 == x {
        Some(s.last().1)
    } else {
        last_indication(s.drop_last(), x)
    }
}

/// `post` is `pre` with session `s` handed out.
pub open spec fn allocates_session(pre_seq: nat, post_seq: nat, s: SessionId) -> bool {
    &&& s.value() == pre_seq
    &&& post_seq == pre_seq + 1
}

/// The connection list after applying `op` to `ws`: the list, and with it
/// the order of later `DeleteConnection` events, is fixed by the workspace
/// and the operations alone.
pub open spec fn connections_after<P, I>(ws: Workspace<P, I>, op: ClientOp<P>) -> Seq<
    (InputId, OutputId),
> {
    match op {
        ClientOp::DeleteModule(id) => untouched(ws.connections@, id),
        ClientOp::CreateConnection(i, o) => if typechecks(ws, i, o) {
            ws.connected_list(i, o)
        } else {
            ws.connections@
        },
        ClientOp::DeleteConnection(i) => ws.disconnected_list(i),
        _ => ws.connections@,
    }
}

/// The events before the closing `Sync` and before the `DeleteModule`
/// event, if the module was deleted.
pub open spec fn deletion_events<P, I>(r: Seq<EngineEvent<P, I>>, module_deleted: bool) -> Seq<
    EngineEvent<P, I>,
> {
    if module_deleted {
        r.subrange(0, r.len() - 2)
    } else {
        r.subrange(0, r.len() - 1)
    }
}

/// The engine's state: the workspace and the session id sequence.
pub struct Engine<P, I> {
    pub workspace: Workspace<P, I>,
    /// The next session id to hand out.
    pub session_seq: usize,
}

/// A copy of a list of line types.
pub(crate) fn copy_line_types(v: &Vec<LineType>) -> (r: Vec<LineType>)
    ensures
        r@ == v@,
{
    let mut r: Vec<LineType> = Vec::new();
    let mut k: usize = 0;
    while k < v.len()
        invariant
            k <= v@.len(),
            r@ == v@.subrange(0, k as int),
        decreases v@.len() - k,
    {
        r.push(v[k]);
        k = k + 1;
        proof {
            assert(r@ =~= v@.subrange(0, k as int));
        }
    }
    proof {
        assert(r@ =~= v@);
    }
    r
}

impl<P: Clone, I: Clone> Engine<P, I> {
    pub open spec fn wf(self) -> bool {
        &&& self.workspace.wf()
        &&& 0 < self.session_seq
    }

    /// An engine with an empty workspace and no sessions.
    pub fn new() -> (r: Self)
        ensures
            r.wf(),
            r.session_seq == 1,
            r.workspace.module_seq == 1,
            r.workspace.modules@.len() == 0,
            r.workspace.connections@.len() == 0,
            forall|id: ModuleId| !r.workspace.has_module(id),
            forall|i: InputId| #[trigger] r.workspace.connection(i) is None,
    {
        Engine { workspace: Workspace::new(), session_seq: 1 }
    }

    /// Applies one client operation and returns the events it produced,
    /// ending with the operation's `Sync`. Unknown ids and refused
    /// connections change nothing and produce only the `Sync`.
    /// `created` is what constructing the module gave, for `CreateModule`.
    #[verifier::rlimit(60)]
    pub fn client_update(
        &mut self,
        session_id: SessionId,
        msg: ClientMessage<P>,
        created: Option<CreatedModule<I>>,
    ) -> (r: Vec<EngineEvent<P, I>>)
        requires
            old(self).wf(),
            msg.op is CreateModule ==> created is Some,
        ensures
            final(self).wf(),
            final(self).session_seq == old(self).session_seq,
            old(self).workspace.module_seq <= final(self).workspace.module_seq,
            r@.len() >= 1,
            r@.last() == EngineEvent::<P, I>::Sync(OpClock(session_id, msg.sequence)),
            forall|t: int| 0 <= t < r@.len() - 1 ==> (#[trigger] r@[t]) is ServerUpdate,
            final(self).workspace.connections@ == connections_after(old(self).workspace, msg.op),
            ({
                let ws0 = old(self).workspace;
                let ws1 = final(self).workspace;
                let sync = EngineEvent::<P, I>::Sync(OpClock(session_id, msg.sequence));
                msg.op matches ClientOp::CreateModule(params, geometry) ==> {
                        let c = created->0;
                        if !ws0.ids_exhausted() {
                            let id = ws0.next_id();
                            &&& ws0.is_next_id(id)
                            &&& ws1.module_seq == id.0 + 1
                            &&& ws1.module(id) matches Some(m) && cloned(params, m.params)
                                && m.geometry == geometry && m.indication == c.indication
                                && m.inputs == c.inputs@ && m.outputs == c.outputs@
                            &&& forall|x: ModuleId| x != id ==> #[trigger] ws1.module(x) == ws0.module(x)
                            &&& ws1.same_connections(ws0)
                            &&& r@.len() == 2
                            &&& r@[0] matches EngineEvent::ServerUpdate(ServerUpdate::CreateModule {
                                id: id2,
                                params: p2,
                                geometry: g2,
                                indication: i2,
                                inputs: in2,
                                outputs: out2,
                            }) && id2 == id && p2 == params && g2 == geometry && cloned(
                                c.indication,
                                i2,
                            ) && in2@ == c.inputs@ && out2@ == c.outputs@
                        } else {
                            ws1 == ws0 && r@ == seq![sync]
                        }
                    }
            }),
            ({
                let ws0 = old(self).workspace;
                let ws1 = final(self).workspace;
                let sync = EngineEvent::<P, I>::Sync(OpClock(session_id, msg.sequence));
                msg.op matches ClientOp::UpdateModuleParams(id, params) ==> if ws0.has_module(id) {
                        &&& ws1.module(id) matches Some(m) && cloned(params, m.params)
                            && m.geometry == ws0.module(id)->0.geometry
                            && m.indication == ws0.module(id)->0.indication
                            && m.inputs == ws0.module(id)->0.inputs
                            && m.outputs == ws0.module(id)->0.outputs
                        &&& forall|x: ModuleId| x != id ==> #[trigger] ws1.module(x) == ws0.module(x)
                        &&& ws1.module_seq == ws0.module_seq
                        &&& ws1.same_connections(ws0)
                        &&& r@ == seq![
                            EngineEvent::ServerUpdate(ServerUpdate::UpdateModuleParams(id, params)),
                            sync,
                        ]
                    } else {
                        ws1 == ws0 && r@ == seq![sync]
                    }
            }),
            ({
                let ws0 = old(self).workspace;
                let ws1 = final(self).workspace;
                let sync = EngineEvent::<P, I>::Sync(OpClock(session_id, msg.sequence));
                msg.op matches ClientOp::UpdateWindowGeometry(id, geometry) ==> if ws0.has_module(id) {
                        &&& ws1.module(id) == Some(ModuleView { geometry, ..ws0.module(id)->0 })
                        &&& forall|x: ModuleId| x != id ==> #[trigger] ws1.module(x) == ws0.module(x)
                        &&& ws1.module_seq == ws0.module_seq
                        &&& ws1.same_connections(ws0)
                        &&& r@ == seq![
                            EngineEvent::ServerUpdate(ServerUpdate::UpdateWindowGeometry(id, geometry)),
                            sync,
                        ]
                    } else {
                        ws1 == ws0 && r@ == seq![sync]
                    }
            }),
            ({
                let ws0 = old(self).workspace;
                let ws1 = final(self).workspace;
                let sync = EngineEvent::<P, I>::Sync(OpClock(session_id, msg.sequence));
                msg.op matches ClientOp::DeleteModule(id) ==> {
                        let removed = deletion_events(r@, ws0.has_module(id));
                        &&& !ws1.has_module(id)
                        &&& forall|x: ModuleId| x != id ==> #[trigger] ws1.module(x) == ws0.module(x)
                        &&& ws1.module_seq == ws0.module_seq
                        &&& forall|j: InputId|
                            #[trigger] ws1.connection(j) == (if ws0.connection(j) matches Some(o)
                                && touches(j, o, id) {
                                None
                            } else {
                                ws0.connection(j)
                            })
                        &&& ws0.has_module(id) ==> r@.len() >= 2 && r@[r@.len() - 2]
                            == EngineEvent::<P, I>::ServerUpdate(ServerUpdate::DeleteModule(id))
                        &&& removed.no_duplicates()
                        &&& forall|e: EngineEvent<P, I>|
                            #[trigger] removed.contains(e) <==> exists|j: InputId|
                                e == EngineEvent::<P, I>::ServerUpdate(ServerUpdate::DeleteConnection(j))
                                && (ws0.connection(j) matches Some(o) && touches(j, o, id))
                        &&& r@ == delete_events::<P, I>(touching_inputs(ws0.connections@, id)) + (if ws0.has_module(id) {
                            seq![EngineEvent::<P, I>::ServerUpdate(ServerUpdate::DeleteModule(id))]
                        } else {
                            Seq::<EngineEvent<P, I>>::empty()
                        }) + seq![sync]
                    }
            }),
            ({
                let ws0 = old(self).workspace;
                let ws1 = final(self).workspace;
                let sync = EngineEvent::<P, I>::Sync(OpClock(session_id, msg.sequence));
                msg.op matches ClientOp::CreateConnection(input, output) ==> {
                        let in_ty = ws0.spec_terminal_type(crate::ids::TerminalId::Input(input));
                        let out_ty = ws0.spec_terminal_type(crate::ids::TerminalId::Output(output));
                        let create = EngineEvent::<P, I>::ServerUpdate(ServerUpdate::CreateConnection(input, output));
                        let delete = EngineEvent::<P, I>::ServerUpdate(ServerUpdate::DeleteConnection(input));
                        if in_ty is Some && in_ty == out_ty {
                            &&& ws1.same_modules(ws0)
                            &&& ws1.connection(input) == Some(output)
                            &&& forall|j: InputId| j != input ==> #[trigger] ws1.connection(j) == ws0.connection(j)
                            &&& r@ == if ws0.connection(input) is Some {
                                seq![delete, create, sync]
                            } else {
                                seq![create, sync]
                            }
                        } else {
                            ws1 == ws0 && r@ == seq![sync]
                        }
                    }
            }),
            ({
                let ws0 = old(self).workspace;
                let ws1 = final(self).workspace;
                let sync = EngineEvent::<P, I>::Sync(OpClock(session_id, msg.sequence));
                msg.op matches ClientOp::DeleteConnection(input) ==> if ws0.connection(input) is Some {
                        &&& ws1.same_modules(ws0)
                        &&& ws1.connection(input) is None
                        &&& forall|j: InputId| j != input ==> #[trigger] ws1.connection(j) == ws0.connection(j)
                        &&& r@ == seq![
                            EngineEvent::ServerUpdate(ServerUpdate::DeleteConnection(input)),
                            sync,
                        ]
                    } else {
                        ws1 == ws0 && r@ == seq![sync]
                    }
            }),
    {
        let clock = OpClock(session_id, msg.sequence);
        let mut events: Vec<EngineEvent<P, I>> = Vec::new();
        let ghost mut deletions: Seq<EngineEvent<P, I>> = Seq::empty();
        let ghost mut deleted_module: Seq<EngineEvent<P, I>> = Seq::empty();
        match msg.op {
            ClientOp::CreateModule(params, geometry) => {
                let c = created.unwrap();
                let stored = params.clone();
                let indication = c.indication.clone();
                let inputs = copy_line_types(&c.inputs);
                let outputs = copy_line_types(&c.outputs);
                match self.workspace.add_module(stored, geometry, c.indication, c.inputs, c.outputs) {
                    Some(id) => {
                        events.push(
                            EngineEvent::ServerUpdate(
                                ServerUpdate::CreateModule {
                                    id,
                                    params,
                                    geometry,
                                    indication,
                                    inputs,
                                    outputs,
                                },
                            ),
                        );
                    },
                    None => {},
                }
            },
            ClientOp::UpdateModuleParams(id, params) => {
                let stored = params.clone();
                if self.workspace.set_params(id, stored) {
                    events.push(EngineEvent::ServerUpdate(ServerUpdate::UpdateModuleParams(id, params)));
                }
            },
            ClientOp::UpdateWindowGeometry(id, geometry) => {
                if self.workspace.set_geometry(id, geometry) {
                    events.push(
                        EngineEvent::ServerUpdate(ServerUpdate::UpdateWindowGeometry(id, geometry)),
                    );
                }
            },
            ClientOp::DeleteModule(id) => {
                let ghost ws0 = self.workspace;
                let (removed, present) = self.workspace.remove_module(id);
                let mut k: usize = 0;
                while k < removed.len()
                    invariant
                        k <= removed@.len(),
                        events@ == delete_events::<P, I>(removed@.subrange(0, k as int)),
                    decreases removed@.len() - k,
                {
                    events.push(EngineEvent::ServerUpdate(ServerUpdate::DeleteConnection(removed[k])));
                    k = k + 1;
                    proof {
                        assert(events@ =~= delete_events::<P, I>(removed@.subrange(0, k as int)));
                    }
                }
                proof {
                    assert(removed@.subrange(0, removed@.len() as int) =~= removed@);
                    let ev = events@;
                    assert forall|e: EngineEvent<P, I>|
                        #[trigger] ev.contains(e) <==> exists|j: InputId|
                            e == EngineEvent::<P, I>::ServerUpdate(ServerUpdate::DeleteConnection(j))
                            && removed@.contains(j) by {
                        if ev.contains(e) {
                            let w = choose|w: int| 0 <= w < ev.len() && ev[w] == e;
                            assert(removed@.contains(removed@[w]));
                        }
                        if exists|j: InputId|
                            e == EngineEvent::<P, I>::ServerUpdate(ServerUpdate::DeleteConnection(j))
                            && removed@.contains(j) {
                            let j = choose|j: InputId|
                                e == EngineEvent::<P, I>::ServerUpdate(ServerUpdate::DeleteConnection(j))
                                && removed@.contains(j);
                            let w = choose|w: int| 0 <= w < removed@.len() && removed@[w] == j;
                            assert(ev[w] == e);
                        }
                    }
                    assert forall|a: int, b: int| 0 <= a < ev.len() && 0 <= b < ev.len() && a != b implies ev[a] != ev[b] by {
                        assert(removed@[a] != removed@[b]);
                    }
                    assert forall|e: EngineEvent<P, I>|
                        #[trigger] ev.contains(e) <==> exists|j: InputId|
                            e == EngineEvent::<P, I>::ServerUpdate(ServerUpdate::DeleteConnection(j))
                            && (ws0.connection(j) matches Some(o) && touches(j, o, id)) by {
                        if ev.contains(e) {
                            let j = choose|j: InputId|
                                e == EngineEvent::<P, I>::ServerUpdate(ServerUpdate::DeleteConnection(j))
                                && removed@.contains(j);
                            assert(removed@.contains(j));
                        }
                        if exists|j: InputId|
                            e == EngineEvent::<P, I>::ServerUpdate(ServerUpdate::DeleteConnection(j))
                            && (ws0.connection(j) matches Some(o) && touches(j, o, id)) {
                            let j = choose|j: InputId|
                                e == EngineEvent::<P, I>::ServerUpdate(ServerUpdate::DeleteConnection(j))
                                && (ws0.connection(j) matches Some(o) && touches(j, o, id));
                            assert(removed@.contains(j));
                        }
                    }
                    deletions = ev;
                }
                let ghost listed = events@;
                if present {
                    events.push(EngineEvent::ServerUpdate(ServerUpdate::DeleteModule(id)));
                }
                proof {
                    assert(events@ =~= listed + (if present {
                        seq![EngineEvent::<P, I>::ServerUpdate(ServerUpdate::DeleteModule(id))]
                    } else {
                        Seq::<EngineEvent<P, I>>::empty()
                    }));
                    deleted_module = events@;
                }
            },
            ClientOp::CreateConnection(input, output) => {
                match self.workspace.connect(input, output) {
                    Ok(prior) => {
                        if prior.is_some() {
                            events.push(EngineEvent::ServerUpdate(ServerUpdate::DeleteConnection(input)));
                        }
                        events.push(
                            EngineEvent::ServerUpdate(ServerUpdate::CreateConnection(input, output)),
                        );
                    },
                    Err(_) => {},
                }
            },
            ClientOp::DeleteConnection(input) => {
                if self.workspace.disconnect(input).is_some() {
                    events.push(EngineEvent::ServerUpdate(ServerUpdate::DeleteConnection(input)));
                }
            },
        }
        let ghost body = events@;
        events.push(EngineEvent::Sync(clock));
        proof {
            assert(events@ == body.push(EngineEvent::<P, I>::Sync(clock)));
            assert(events@.subrange(0, body.len() as int) =~= body);
            if msg.op is DeleteModule {
                assert(events@.subrange(0, deletions.len() as int) =~= deletions);
                assert(body == deleted_module);
            }
        }
        events
    }
    /// A copy of the whole workspace, module by module in ascending id
    /// order.
    pub fn dump_state(&self) -> (r: WorkspaceState<P, I>)
        requires
            self.wf(),
        ensures
            is_snapshot(self.workspace, r),
    {
        let mut state = WorkspaceState {
            modules: Vec::new(),
            geometry: Vec::new(),
            indications: Vec::new(),
            connections: Vec::new(),
            inputs: Vec::new(),
            outputs: Vec::new(),
        };
        let n = self.workspace.modules.len();
        let mut k: usize = 0;
        while k < n
            invariant
                n == self.workspace.modules@.len(),
                k <= n,
                state.modules@.len() == k,
                state.geometry@.len() == k,
                state.indications@.len() == k,
                state.inputs@.len() == k,
                state.outputs@.len() == k,
                state.connections@.len() == 0,
                forall|j: int|
                    0 <= j < k ==> {
                        let m = #[trigger] self.workspace.modules@[j];
                        &&& state.modules@[j].0 == m.id && cloned(m.params, state.modules@[j].1)
                        &&& state.geometry@[j] == (m.id, m.geometry)
                        &&& state.indications@[j].0 == m.id && cloned(
                            m.indication,
                            state.indications@[j].1,
                        )
                        &&& state.inputs@[j].0 == m.id && state.inputs@[j].1@ == m.inputs@
                        &&& state.outputs@[j].0 == m.id && state.outputs@[j].1@ == m.outputs@
                    },
            decreases n - k,
        {
            let m = &self.workspace.modules[k];
            state.modules.push((m.id, m.params.clone()));
            state.geometry.push((m.id, m.geometry));
            state.indications.push((m.id, m.indication.clone()));
            state.inputs.push((m.id, copy_line_types(&m.inputs)));
            state.outputs.push((m.id, copy_line_types(&m.outputs)));
            k = k + 1;
        }
        let mut c: usize = 0;
        while c < self.workspace.connections.len()
            invariant
                c <= self.workspace.connections@.len(),
                state.connections@ == self.workspace.connections@.subrange(0, c as int),
                state.modules@.len() == n,
                state.geometry@.len() == n,
                state.indications@.len() == n,
                state.inputs@.len() == n,
                state.outputs@.len() == n,
                n == self.workspace.modules@.len(),
                forall|j: int|
                    0 <= j < n ==> {
                        let m = #[trigger] self.workspace.modules@[j];
                        &&& state.modules@[j].0 == m.id && cloned(m.params, state.modules@[j].1)
                        &&& state.geometry@[j] == (m.id, m.geometry)
                        &&& state.indications@[j].0 == m.id && cloned(
                            m.indication,
                            state.indications@[j].1,
                        )
                        &&& state.inputs@[j].0 == m.id && state.inputs@[j].1@ == m.inputs@
                        &&& state.outputs@[j].0 == m.id && state.outputs@[j].1@ == m.outputs@
                    },
            decreases self.workspace.connections@.len() - c,
        {
            state.connections.push(self.workspace.connections[c]);
            c = c + 1;
            proof {
                assert(state.connections@ =~= self.workspace.connections@.subrange(0, c as int));
            }
        }
        proof {
            assert(state.connections@ =~= self.workspace.connections@);
        }
        state
    }

    /// Registers a new session: hands out the next session id together with
    /// a copy of the workspace. `None`, with nothing changed, once the
    /// session ids are used up.
    pub fn connect_session(&mut self) -> (r: Option<(SessionId, WorkspaceState<P, I>)>)
        requires
            old(self).wf(),
        ensures
            final(self).wf(),
            final(self).workspace == old(self).workspace,
            old(self).session_seq == usize::MAX ==> r is None && *final(self) == *old(self),
            old(self).session_seq < usize::MAX ==> r is Some,
            r matches Some((s, state)) ==> allocates_session(
                old(self).session_seq as nat,
                final(self).session_seq as nat,
                s,
            ) && is_snapshot(old(self).workspace, state),
    {
        if self.session_seq == usize::MAX {
            return None;
        }
        match SessionId::new(self.session_seq) {
            None => None,
            Some(session_id) => {
                self.session_seq = self.session_seq + 1;
                let state = self.dump_state();
                Some((session_id, state))
            },
        }
    }

    /// Installs the indications a tick produced, in order (a later entry for
    /// a module replaces an earlier one), and returns, in order, an
    /// `UpdateModuleIndication` event for each entry whose module exists.
    #[verifier::rlimit(60)]
    pub fn apply_indications(&mut self, indications: Vec<(ModuleId, I)>) -> (r: Vec<
        EngineEvent<P, I>,
    >)
        requires
            old(self).wf(),
        ensures
            final(self).wf(),
            final(self).session_seq == old(self).session_seq,
            final(self).workspace.module_seq == old(self).workspace.module_seq,
            final(self).workspace.connections@ == old(self).workspace.connections@,
            forall|x: ModuleId|
                #[trigger] final(self).workspace.has_module(x) == old(self).workspace.has_module(x),
            forall|x: ModuleId|
                old(self).workspace.has_module(x) ==> {
                    let m0 = old(self).workspace.module(x)->0;
                    let m1 = #[trigger] final(self).workspace.module(x)->0;
                    &&& m1.params == m0.params
                    &&& m1.geometry == m0.geometry
                    &&& m1.inputs == m0.inputs
                    &&& m1.outputs == m0.outputs
                    &&& match last_indication(indications@, x) {
                        Some(v) => cloned(v, m1.indication),
                        None => m1.indication == m0.indication,
                    }
                },
            r@.len() == present_entries(old(self).workspace, indications@).len(),
            forall|t: int|
                0 <= t < r@.len() ==> announces(
                    #[trigger] r@[t],
                    present_entries(old(self).workspace, indications@)[t],
                ),
    {
        let ghost pre = self.workspace;
        let mut events: Vec<EngineEvent<P, I>> = Vec::new();
        let mut k: usize = 0;
        while k < indications.len()
            invariant
                self.wf(),
                self.session_seq == old(self).session_seq,
                pre == old(self).workspace,
                k <= indications@.len(),
                self.workspace.module_seq == pre.module_seq,
                self.workspace.connections@ == pre.connections@,
                forall|x: ModuleId| #[trigger] self.workspace.has_module(x) == pre.has_module(x),
                forall|x: ModuleId|
                    pre.has_module(x) ==> {
                        let m0 = pre.module(x)->0;
                        let m1 = #[trigger] self.workspace.module(x)->0;
                        &&& m1.params == m0.params
                        &&& m1.geometry == m0.geometry
                        &&& m1.inputs == m0.inputs
                        &&& m1.outputs == m0.outputs
                        &&& match last_indication(indications@.subrange(0, k as int), x) {
                            Some(v) => cloned(v, m1.indication),
                            None => m1.indication == m0.indication,
                        }
                    },
                events@.len() == present_entries(pre, indications@.subrange(0, k as int)).len(),
                forall|t: int|
                    0 <= t < events@.len() ==> announces(
                        #[trigger] events@[t],
                        present_entries(pre, indications@.subrange(0, k as int))[t],
                    ),
            decreases indications@.len() - k,
        {
            let id = indications[k].0;
            let stored = indications[k].1.clone();
            let sent = indications[k].1.clone();
            let ghost ws1 = self.workspace;
            let ghost ev1 = events@;
            let installed = self.workspace.set_indication(id, stored);
            if installed {
                events.push(EngineEvent::ServerUpdate(ServerUpdate::UpdateModuleIndication(id, sent)));
            }
            proof {
                let prefix = indications@.subrange(0, k as int);
                let next = indications@.subrange(0, k + 1);
                assert(next.drop_last() =~= prefix);
                assert(next.last() == indications@[k as int]);
                assert forall|x: ModuleId| #[trigger] self.workspace.has_module(x) == ws1.has_module(x) by {
                    if x != id {
                        assert(self.workspace.module(x) == ws1.module(x));
                    }
                }
                let p0 = present_entries(pre, prefix);
                let p1 = present_entries(pre, next);
                assert(installed == pre.has_module(id));
                assert forall|t: int| 0 <= t < events@.len() implies announces(
                    #[trigger] events@[t],
                    p1[t],
                ) by {
                    if t < ev1.len() {
                        assert(events@[t] == ev1[t]);
                        assert(p1[t] == p0[t]);
                    }
                }
            }
            k = k + 1;
        }
        proof {
            assert(indications@.subrange(0, indications@.len() as int) =~= indications@);
        }
        events
    }
}

} // verus!
