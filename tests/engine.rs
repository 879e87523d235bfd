use std::collections::HashMap;
use std::sync::mpsc;

use mixlab_engine::clock::{reports_performance, remaining_ms, sample_offset, scheduled_tick_end_ms};
use mixlab_engine::engine::{ClientMessage, ClientOp, CreatedModule, Engine, EngineEvent, ServerUpdate};
use mixlab_engine::ids::{
    ClientSequence, EngineError, InputId, LineType, ModuleId, OpClock, OutputId, SessionId, TerminalId,
    SAMPLES_PER_TICK,
};
use mixlab_engine::persist::{SavedModule, SavedWorkspace};
use mixlab_engine::schedule::{plan_tick, run_order_positions};
use mixlab_engine::timing::{EngineStat, ModuleReport, TickReport};
use mixlab_engine::video_mix::crossfade_line;
use mixlab_engine::workspace::{ConnectError, Coords, WindowGeometry, Workspace};

type Ev = EngineEvent<u32, u32>;

fn geom() -> WindowGeometry {
    WindowGeometry { position: Coords { x: 10, y: -4 }, z_index: 3 }
}

fn shape(inputs: Vec<LineType>, outputs: Vec<LineType>) -> Option<CreatedModule<u32>> {
    Some(CreatedModule { indication: 0, inputs, outputs })
}

fn session(engine: &mut Engine<u32, u32>) -> SessionId {
    engine.connect_session().expect("session").0
}

fn send(
    engine: &mut Engine<u32, u32>,
    s: SessionId,
    seq: usize,
    op: ClientOp<u32>,
    created: Option<CreatedModule<u32>>,
) -> Vec<Ev> {
    engine.client_update(s, ClientMessage { sequence: ClientSequence(seq), op }, created)
}

fn create(engine: &mut Engine<u32, u32>, s: SessionId, seq: usize, inputs: Vec<LineType>, outputs: Vec<LineType>) -> ModuleId {
    let events = send(engine, s, seq, ClientOp::CreateModule(seq as u32, geom()), shape(inputs, outputs));
    match &events[0] {
        EngineEvent::ServerUpdate(ServerUpdate::CreateModule { id, .. }) => *id,
        other => panic!("unexpected {:?}", other),
    }
}

fn sync(s: SessionId, seq: usize) -> Ev {
    EngineEvent::Sync(OpClock(s, ClientSequence(seq)))
}

fn update(u: ServerUpdate<u32, u32>) -> Ev {
    EngineEvent::ServerUpdate(u)
}

#[test]
fn create_connect_delete() {
    let mut engine = Engine::<u32, u32>::new();
    let s = session(&mut engine);
    let mut log: Vec<Ev> = Vec::new();
    log.extend(send(&mut engine, s, 1, ClientOp::CreateModule(7, geom()), shape(vec![], vec![LineType::Stereo])));
    log.extend(send(
        &mut engine,
        s,
        2,
        ClientOp::CreateModule(8, geom()),
        shape(vec![LineType::Stereo, LineType::Mono], vec![LineType::Stereo]),
    ));
    let a = ModuleId(1);
    let b = ModuleId(2);
    log.extend(send(&mut engine, s, 3, ClientOp::CreateConnection(InputId(b, 0), OutputId(a, 0)), None));
    log.extend(send(&mut engine, s, 4, ClientOp::DeleteModule(a), None));
    let expected: Vec<Ev> = vec![
        update(ServerUpdate::CreateModule {
            id: a,
            params: 7,
            geometry: geom(),
            indication: 0,
            inputs: vec![],
            outputs: vec![LineType::Stereo],
        }),
        sync(s, 1),
        update(ServerUpdate::CreateModule {
            id: b,
            params: 8,
            geometry: geom(),
            indication: 0,
            inputs: vec![LineType::Stereo, LineType::Mono],
            outputs: vec![LineType::Stereo],
        }),
        sync(s, 2),
        update(ServerUpdate::CreateConnection(InputId(b, 0), OutputId(a, 0))),
        sync(s, 3),
        update(ServerUpdate::DeleteConnection(InputId(b, 0))),
        update(ServerUpdate::DeleteModule(a)),
        sync(s, 4),
    ];
    assert_eq!(log, expected);
    assert!(engine.workspace.connections.is_empty());
    assert_eq!(engine.workspace.find_module(a), None);
    assert!(engine.workspace.find_module(b).is_some());
}

#[test]
fn type_mismatch_yields_only_sync() {
    let mut engine = Engine::<u32, u32>::new();
    let s = session(&mut engine);
    let x = create(&mut engine, s, 1, vec![], vec![LineType::Stereo]);
    let y = create(&mut engine, s, 2, vec![LineType::Video], vec![]);
    let events = send(&mut engine, s, 3, ClientOp::CreateConnection(InputId(y, 0), OutputId(x, 0)), None);
    assert_eq!(events, vec![sync(s, 3)]);
    assert_eq!(engine.workspace.get_connection(InputId(y, 0)), None);
    assert!(engine.workspace.connections.is_empty());
}

#[test]
fn connection_replacement() {
    let mut engine = Engine::<u32, u32>::new();
    let s = session(&mut engine);
    let x = create(&mut engine, s, 1, vec![LineType::Stereo], vec![]);
    let y = create(&mut engine, s, 2, vec![], vec![LineType::Stereo]);
    let z = create(&mut engine, s, 3, vec![], vec![LineType::Stereo]);
    let first = send(&mut engine, s, 4, ClientOp::CreateConnection(InputId(x, 0), OutputId(y, 0)), None);
    assert_eq!(first, vec![update(ServerUpdate::CreateConnection(InputId(x, 0), OutputId(y, 0))), sync(s, 4)]);
    let second = send(&mut engine, s, 5, ClientOp::CreateConnection(InputId(x, 0), OutputId(z, 0)), None);
    assert_eq!(
        second,
        vec![
            update(ServerUpdate::DeleteConnection(InputId(x, 0))),
            update(ServerUpdate::CreateConnection(InputId(x, 0), OutputId(z, 0))),
            sync(s, 5),
        ]
    );
    assert_eq!(engine.workspace.connections, vec![(InputId(x, 0), OutputId(z, 0))]);
}

#[test]
fn linear_chain_runs_in_order_and_passes_buffers() {
    let mut engine = Engine::<u32, u32>::new();
    let s = session(&mut engine);
    let c = create(&mut engine, s, 1, vec![LineType::Mono], vec![LineType::Mono]);
    let b = create(&mut engine, s, 2, vec![LineType::Mono], vec![LineType::Mono]);
    let a = create(&mut engine, s, 3, vec![LineType::Mono], vec![LineType::Mono]);
    send(&mut engine, s, 4, ClientOp::CreateConnection(InputId(b, 0), OutputId(a, 0)), None);
    send(&mut engine, s, 5, ClientOp::CreateConnection(InputId(c, 0), OutputId(b, 0)), None);
    let plan = plan_tick(&engine.workspace);
    let order: Vec<ModuleId> = plan.iter().map(|step| step.module).collect();
    assert_eq!(order, vec![a, b, c]);
    assert_eq!(plan[0].inputs, vec![None]);
    assert_eq!(plan[1].inputs, vec![Some(OutputId(a, 0))]);
    assert_eq!(plan[2].inputs, vec![Some(OutputId(b, 0))]);

    // identity modules, with A (whose input is unconnected) emitting a ramp
    let mut produced: HashMap<OutputId, Vec<f32>> = HashMap::new();
    let mut c_input: Vec<f32> = Vec::new();
    for step in &plan {
        let input = match step.inputs[0] {
            Some(o) => produced[&o].clone(),
            None => (0..SAMPLES_PER_TICK).map(|i| i as f32).collect(),
        };
        if step.module == c {
            c_input = input.clone();
        }
        produced.insert(OutputId(step.module, 0), input);
    }
    assert_eq!(c_input, produced[&OutputId(a, 0)]);
    assert_eq!(c_input.len(), LineType::Mono.buffer_len());
}

#[test]
fn cycle_runs_each_module_once() {
    let mut engine = Engine::<u32, u32>::new();
    let s = session(&mut engine);
    let a = create(&mut engine, s, 1, vec![LineType::Stereo], vec![LineType::Stereo]);
    let b = create(&mut engine, s, 2, vec![LineType::Stereo], vec![LineType::Stereo]);
    send(&mut engine, s, 3, ClientOp::CreateConnection(InputId(a, 0), OutputId(b, 0)), None);
    send(&mut engine, s, 4, ClientOp::CreateConnection(InputId(b, 0), OutputId(a, 0)), None);
    for _tick in 0..3 {
        let plan = plan_tick(&engine.workspace);
        assert_eq!(plan.len(), 2);
        assert_ne!(plan[0].module, plan[1].module);
        assert!(plan.iter().any(|step| step.module == a));
        assert!(plan.iter().any(|step| step.module == b));
        assert_eq!(plan[0].inputs, vec![None]);
        assert!(plan[1].inputs[0].is_some());
    }
}

#[test]
fn full_queue_reports_busy_until_serviced() {
    let (tx, rx) = mpsc::sync_channel::<u32>(8);
    for i in 0..8 {
        assert!(tx.try_send(i).is_ok());
    }
    let refused = tx.try_send(8).unwrap_err();
    let err = EngineError::from_refused_send(matches!(refused, mpsc::TrySendError::Full(_)));
    assert_eq!(err, EngineError::Busy);
    assert_eq!(rx.try_recv(), Ok(0));
    assert!(tx.try_send(9).is_ok());
    drop(rx);
    let refused = tx.try_send(10).unwrap_err();
    let err = EngineError::from_refused_send(matches!(refused, mpsc::TrySendError::Full(_)));
    assert_eq!(err, EngineError::Stopped);
}

fn scripted_run() -> Vec<Ev> {
    let mut engine = Engine::<u32, u32>::new();
    let s = session(&mut engine);
    let mut log = Vec::new();
    log.extend(send(&mut engine, s, 1, ClientOp::CreateModule(1, geom()), shape(vec![LineType::Mono], vec![LineType::Mono])));
    log.extend(send(&mut engine, s, 2, ClientOp::CreateModule(2, geom()), shape(vec![LineType::Mono], vec![LineType::Mono])));
    log.extend(send(&mut engine, s, 3, ClientOp::CreateConnection(InputId(ModuleId(2), 0), OutputId(ModuleId(1), 0)), None));
    log.extend(send(&mut engine, s, 4, ClientOp::CreateConnection(InputId(ModuleId(1), 0), OutputId(ModuleId(2), 0)), None));
    log.extend(send(&mut engine, s, 5, ClientOp::DeleteModule(ModuleId(2)), None));
    log
}

#[test]
fn identical_commands_give_identical_updates() {
    assert_eq!(scripted_run(), scripted_run());
}

#[test]
fn sync_closes_every_command() {
    let mut engine = Engine::<u32, u32>::new();
    let s = session(&mut engine);
    let ops: Vec<(ClientOp<u32>, Option<CreatedModule<u32>>)> = vec![
        (ClientOp::CreateModule(1, geom()), shape(vec![], vec![LineType::Video])),
        (ClientOp::UpdateModuleParams(ModuleId(1), 5), None),
        (ClientOp::UpdateModuleParams(ModuleId(9), 5), None),
        (ClientOp::UpdateWindowGeometry(ModuleId(1), geom()), None),
        (ClientOp::DeleteConnection(InputId(ModuleId(1), 0)), None),
        (ClientOp::DeleteModule(ModuleId(1)), None),
        (ClientOp::DeleteModule(ModuleId(1)), None),
    ];
    for (seq, (op, created)) in ops.into_iter().enumerate() {
        let events = send(&mut engine, s, seq + 1, op, created);
        assert_eq!(events.last(), Some(&sync(s, seq + 1)));
        let syncs = events.iter().filter(|e| matches!(e, EngineEvent::Sync(_))).count();
        assert_eq!(syncs, 1);
    }
}

#[test]
fn update_params_and_geometry() {
    let mut engine = Engine::<u32, u32>::new();
    let s = session(&mut engine);
    let m = create(&mut engine, s, 1, vec![], vec![LineType::Mono]);
    let ev = send(&mut engine, s, 2, ClientOp::UpdateModuleParams(m, 42), None);
    assert_eq!(ev, vec![update(ServerUpdate::UpdateModuleParams(m, 42)), sync(s, 2)]);
    assert_eq!(engine.workspace.modules[0].params, 42);
    let g = WindowGeometry { position: Coords { x: 1, y: 2 }, z_index: 9 };
    let ev = send(&mut engine, s, 3, ClientOp::UpdateWindowGeometry(m, g), None);
    assert_eq!(ev, vec![update(ServerUpdate::UpdateWindowGeometry(m, g)), sync(s, 3)]);
    assert_eq!(engine.workspace.modules[0].geometry, g);
    let ev = send(&mut engine, s, 4, ClientOp::UpdateWindowGeometry(ModuleId(77), g), None);
    assert_eq!(ev, vec![sync(s, 4)]);
    let ev = send(&mut engine, s, 5, ClientOp::DeleteConnection(InputId(m, 0)), None);
    assert_eq!(ev, vec![sync(s, 5)]);
}

#[test]
fn ids_increase_in_allocation_order() {
    let mut engine = Engine::<u32, u32>::new();
    let s1 = session(&mut engine);
    let s2 = session(&mut engine);
    assert_eq!(s1.get(), 1);
    assert_eq!(s2.get(), 2);
    let m1 = create(&mut engine, s1, 1, vec![], vec![]);
    send(&mut engine, s1, 2, ClientOp::DeleteModule(m1), None);
    let m2 = create(&mut engine, s2, 1, vec![], vec![]);
    assert_eq!(m1, ModuleId(1));
    assert_eq!(m2, ModuleId(2));
    assert!(m1 < m2);
}

#[test]
fn snapshot_on_connect() {
    let mut engine = Engine::<u32, u32>::new();
    let s = session(&mut engine);
    let a = create(&mut engine, s, 1, vec![], vec![LineType::Mono]);
    let b = create(&mut engine, s, 2, vec![LineType::Mono], vec![]);
    send(&mut engine, s, 3, ClientOp::CreateConnection(InputId(b, 0), OutputId(a, 0)), None);
    let (s2, state) = engine.connect_session().expect("session");
    assert_eq!(s2.get(), 2);
    assert_eq!(state.modules, vec![(a, 1), (b, 2)]);
    assert_eq!(state.geometry, vec![(a, geom()), (b, geom())]);
    assert_eq!(state.indications, vec![(a, 0), (b, 0)]);
    assert_eq!(state.connections, vec![(InputId(b, 0), OutputId(a, 0))]);
    assert_eq!(state.inputs, vec![(a, vec![]), (b, vec![LineType::Mono])]);
    assert_eq!(state.outputs, vec![(a, vec![LineType::Mono]), (b, vec![])]);
}

#[test]
fn indications_are_installed_and_broadcast() {
    let mut engine = Engine::<u32, u32>::new();
    let s = session(&mut engine);
    let a = create(&mut engine, s, 1, vec![], vec![]);
    let b = create(&mut engine, s, 2, vec![], vec![]);
    let events = engine.apply_indications(vec![(a, 5), (ModuleId(99), 1), (b, 6), (a, 7)]);
    assert_eq!(
        events,
        vec![
            update(ServerUpdate::UpdateModuleIndication(a, 5)),
            update(ServerUpdate::UpdateModuleIndication(b, 6)),
            update(ServerUpdate::UpdateModuleIndication(a, 7)),
        ]
    );
    assert_eq!(engine.workspace.modules[0].indication, 7);
    assert_eq!(engine.workspace.modules[1].indication, 6);
}

#[test]
fn connect_errors() {
    let mut ws = Workspace::<u32, u32>::new();
    let a = ws.add_module(1, geom(), 0, vec![], vec![LineType::Stereo]).unwrap();
    let b = ws.add_module(2, geom(), 0, vec![LineType::Stereo, LineType::Mono], vec![]).unwrap();
    assert_eq!(ws.connect(InputId(b, 5), OutputId(a, 0)), Err(ConnectError::NoInput));
    assert_eq!(ws.connect(InputId(ModuleId(50), 0), OutputId(a, 0)), Err(ConnectError::NoInput));
    assert_eq!(ws.connect(InputId(b, 0), OutputId(a, 1)), Err(ConnectError::NoOutput));
    assert_eq!(ws.connect(InputId(b, 1), OutputId(a, 0)), Err(ConnectError::TypeMismatch));
    assert_eq!(ws.connect(InputId(b, 0), OutputId(a, 0)), Ok(None));
    assert_eq!(ws.connect(InputId(b, 0), OutputId(a, 0)), Ok(Some(OutputId(a, 0))));
    assert_eq!(ws.connections.len(), 1);
    assert_eq!(ws.terminal_type(TerminalId::Input(InputId(b, 1))), Some(LineType::Mono));
    assert_eq!(ws.terminal_type(TerminalId::Output(OutputId(a, 0))), Some(LineType::Stereo));
    assert_eq!(ws.terminal_type(TerminalId::Output(OutputId(b, 0))), None);
    assert_eq!(ws.disconnect(InputId(b, 0)), Some(OutputId(a, 0)));
    assert_eq!(ws.disconnect(InputId(b, 0)), None);
}

#[test]
fn remove_module_drops_both_directions() {
    let mut ws = Workspace::<u32, u32>::new();
    let a = ws.add_module(1, geom(), 0, vec![LineType::Mono], vec![LineType::Mono]).unwrap();
    let b = ws.add_module(2, geom(), 0, vec![LineType::Mono], vec![LineType::Mono]).unwrap();
    let c = ws.add_module(3, geom(), 0, vec![LineType::Mono], vec![LineType::Mono]).unwrap();
    ws.connect(InputId(b, 0), OutputId(a, 0)).unwrap();
    ws.connect(InputId(c, 0), OutputId(b, 0)).unwrap();
    ws.connect(InputId(a, 0), OutputId(c, 0)).unwrap();
    let (removed, present) = ws.remove_module(b);
    assert!(present);
    assert_eq!(removed, vec![InputId(b, 0), InputId(c, 0)]);
    assert_eq!(ws.connections, vec![(InputId(a, 0), OutputId(c, 0))]);
    let (removed, present) = ws.remove_module(b);
    assert!(!present);
    assert!(removed.is_empty());
}

#[test]
fn run_order_covers_all_modules() {
    let mut ws = Workspace::<u32, u32>::new();
    for i in 0..5u32 {
        ws.add_module(i, geom(), 0, vec![LineType::Mono], vec![LineType::Mono]).unwrap();
    }
    ws.connect(InputId(ModuleId(1), 0), OutputId(ModuleId(4), 0)).unwrap();
    ws.connect(InputId(ModuleId(4), 0), OutputId(ModuleId(3), 0)).unwrap();
    let order = run_order_positions(&ws);
    let mut sorted = order.clone();
    sorted.sort();
    assert_eq!(sorted, vec![0, 1, 2, 3, 4]);
    let pos = |p: usize| order.iter().position(|&x| x == p).unwrap();
    assert!(pos(2) < pos(3));
    assert!(pos(3) < pos(0));
    assert_eq!(order, vec![2, 3, 0, 1, 4]);
}

#[test]
fn tick_deadlines_do_not_drift() {
    assert_eq!(scheduled_tick_end_ms(0), 16);
    assert_eq!(scheduled_tick_end_ms(1), 33);
    assert_eq!(scheduled_tick_end_ms(59), 1000);
    assert_eq!(scheduled_tick_end_ms(5999), 100_000);
    for n in 0..1000u64 {
        let exact = (n + 1) * 1000;
        let end = scheduled_tick_end_ms(n);
        assert!(end * 60 <= exact && exact < end * 60 + 60);
    }
}

#[test]
fn tick_helpers() {
    assert_eq!(sample_offset(0), 0);
    assert_eq!(sample_offset(2), 1470);
    assert!(reports_performance(0));
    assert!(!reports_performance(1));
    assert!(reports_performance(30));
    assert_eq!(remaining_ms(10, 16), Some(6));
    assert_eq!(remaining_ms(16, 16), None);
    assert_eq!(remaining_ms(20, 16), None);
    assert_eq!(LineType::Mono.buffer_len(), 735);
    assert_eq!(LineType::Stereo.buffer_len(), 1470);
    assert_eq!(LineType::Video.buffer_len(), 0);
}

#[test]
fn clocks_order_within_a_session_only() {
    let s1 = SessionId::new(1).unwrap();
    let s2 = SessionId::new(2).unwrap();
    assert!(SessionId::new(0).is_none());
    let a = OpClock(s1, ClientSequence(1));
    let b = OpClock(s1, ClientSequence(2));
    let c = OpClock(s2, ClientSequence(1));
    assert!(a < b);
    assert!(b > a);
    assert_eq!(a.partial_cmp(&a), Some(std::cmp::Ordering::Equal));
    assert_eq!(a.partial_cmp(&c), None);
    assert!(!(a < c) && !(c < a));
}

#[test]
fn exhausted_ids_create_nothing() {
    let mut engine = Engine::<u32, u32>::new();
    let s = session(&mut engine);
    engine.workspace.module_seq = usize::MAX;
    let events = send(&mut engine, s, 1, ClientOp::CreateModule(1, geom()), shape(vec![], vec![]));
    assert_eq!(events, vec![sync(s, 1)]);
    assert!(engine.workspace.modules.is_empty());
    engine.session_seq = usize::MAX;
    assert!(engine.connect_session().is_none());
}

#[test]
fn save_then_load_restores_the_graph() {
    let mut ws = Workspace::<u32, u32>::new();
    let a = ws.add_module(10, geom(), 1, vec![], vec![LineType::Stereo]).unwrap();
    let b = ws.add_module(20, geom(), 2, vec![LineType::Stereo, LineType::Mono], vec![LineType::Stereo]).unwrap();
    let c = ws.add_module(30, geom(), 3, vec![LineType::Stereo], vec![]).unwrap();
    ws.connect(InputId(b, 0), OutputId(a, 0)).unwrap();
    ws.connect(InputId(c, 0), OutputId(b, 0)).unwrap();
    ws.remove_module(a);
    let saved = ws.save();
    assert_eq!(saved.module_seq, 4);
    assert_eq!(
        saved.modules,
        vec![
            (b, SavedModule { params: 20, geometry: geom(), inputs: vec![None, None] }),
            (c, SavedModule { params: 30, geometry: geom(), inputs: vec![Some(OutputId(b, 0))] }),
        ]
    );
    let created = vec![
        CreatedModule { indication: 0, inputs: vec![LineType::Stereo, LineType::Mono], outputs: vec![LineType::Stereo] },
        CreatedModule { indication: 0, inputs: vec![LineType::Stereo], outputs: vec![] },
    ];
    let loaded = Workspace::<u32, u32>::load(&saved, &created);
    assert_eq!(loaded.module_seq, 4);
    assert_eq!(loaded.modules.len(), 2);
    assert_eq!(loaded.modules[0].id, b);
    assert_eq!(loaded.modules[1].params, 30);
    assert_eq!(loaded.connections, vec![(InputId(c, 0), OutputId(b, 0))]);
    assert_eq!(loaded.save(), saved);

    // a forward reference is fine; a connection that no longer typechecks is dropped
    let saved = SavedWorkspace {
        module_seq: 9,
        modules: vec![
            (ModuleId(3), SavedModule { params: 1, geometry: geom(), inputs: vec![Some(OutputId(ModuleId(5), 0))] }),
            (ModuleId(5), SavedModule { params: 2, geometry: geom(), inputs: vec![Some(OutputId(ModuleId(3), 0))] }),
            (ModuleId(4), SavedModule { params: 3, geometry: geom(), inputs: vec![] }),
        ],
    };
    let created = vec![
        CreatedModule { indication: 0, inputs: vec![LineType::Mono], outputs: vec![LineType::Video] },
        CreatedModule { indication: 0, inputs: vec![LineType::Mono], outputs: vec![LineType::Mono] },
        CreatedModule { indication: 0, inputs: vec![], outputs: vec![] },
    ];
    let loaded = Workspace::<u32, u32>::load(&saved, &created);
    let ids: Vec<ModuleId> = loaded.modules.iter().map(|m| m.id).collect();
    assert_eq!(ids, vec![ModuleId(3), ModuleId(4), ModuleId(5)]);
    assert_eq!(loaded.modules[1].params, 3);
    assert_eq!(loaded.connections, vec![(InputId(ModuleId(3), 0), OutputId(ModuleId(5), 0))]);
}

#[test]
fn load_keeps_every_saved_id_once() {
    let saved = SavedWorkspace {
        module_seq: 6,
        modules: vec![
            (ModuleId(2), SavedModule { params: 1, geometry: geom(), inputs: vec![Some(OutputId(ModuleId(4), 0))] }),
            (ModuleId(0), SavedModule { params: 2, geometry: geom(), inputs: vec![] }),
            (ModuleId(6), SavedModule { params: 3, geometry: geom(), inputs: vec![Some(OutputId(ModuleId(0), 0))] }),
            (ModuleId(2), SavedModule { params: 4, geometry: geom(), inputs: vec![Some(OutputId(ModuleId(1), 0))] }),
            (ModuleId(1), SavedModule { params: 5, geometry: geom(), inputs: vec![] }),
            (ModuleId(4), SavedModule { params: 6, geometry: geom(), inputs: vec![None] }),
        ],
    };
    let mono = || CreatedModule { indication: 0u32, inputs: vec![LineType::Mono], outputs: vec![LineType::Mono] };
    let created = vec![mono(), mono(), mono(), mono(), mono(), mono()];
    let mut loaded = Workspace::<u32, u32>::load(&saved, &created);
    let ids: Vec<(ModuleId, u32)> = loaded.modules.iter().map(|m| (m.id, m.params)).collect();
    assert_eq!(ids, vec![(ModuleId(0), 2), (ModuleId(1), 5), (ModuleId(2), 1), (ModuleId(4), 6), (ModuleId(6), 3)]);
    assert_eq!(
        loaded.connections,
        vec![(InputId(ModuleId(2), 0), OutputId(ModuleId(4), 0)), (InputId(ModuleId(6), 0), OutputId(ModuleId(0), 0))]
    );
    assert_eq!(loaded.module_seq, 6);
    // the next id skips the loaded id 6
    assert_eq!(loaded.add_module(7, geom(), 0, vec![], vec![]), Some(ModuleId(7)));
    assert_eq!(loaded.module_seq, 8);
}

#[test]
fn load_keeps_modules_above_the_sequence() {
    let saved = SavedWorkspace {
        module_seq: 2,
        modules: vec![(ModuleId(5), SavedModule { params: 9, geometry: geom(), inputs: vec![] })],
    };
    let created = vec![CreatedModule { indication: 0u32, inputs: vec![], outputs: vec![] }];
    let mut loaded = Workspace::<u32, u32>::load(&saved, &created);
    assert_eq!(loaded.module_seq, 2);
    assert_eq!(loaded.modules.len(), 1);
    assert_eq!(loaded.modules[0].id, ModuleId(5));
    for expected in 2..5usize {
        assert_eq!(loaded.add_module(0, geom(), 0, vec![], vec![]), Some(ModuleId(expected)));
    }
    assert_eq!(loaded.add_module(0, geom(), 0, vec![], vec![]), Some(ModuleId(6)));
    assert_eq!(loaded.module_seq, 7);
}

#[test]
fn timing_accounts_per_module_and_tick() {
    let mut stat = EngineStat::new(16_666_666);
    stat.record_module(ModuleId(1), 100);
    stat.record_module(ModuleId(2), 50);
    stat.record_module(ModuleId(1), 300);
    stat.record_tick(1000, false);
    stat.record_tick(3000, true);
    let report = stat.report();
    assert_eq!(
        report.modules,
        vec![
            ModuleReport { id: ModuleId(1), avg_ns: 200, sliding_avg_ns: 125, max_ns: 300, count: 2 },
            ModuleReport { id: ModuleId(2), avg_ns: 50, sliding_avg_ns: 50, max_ns: 50, count: 1 },
        ]
    );
    assert_eq!(report.tick, TickReport { avg_ns: 2000, max_ns: 3000, budget_ns: 16_666_666, overruns: 1 });
    stat.remove_module(ModuleId(1));
    let report = stat.report();
    assert_eq!(
        report.modules,
        vec![ModuleReport { id: ModuleId(2), avg_ns: 50, sliding_avg_ns: 50, max_ns: 50, count: 1 }]
    );
    stat.record_module(ModuleId(2), u64::MAX);
    assert_eq!(stat.report().modules[0].max_ns, u64::MAX);
    assert_eq!(stat.report().modules[0].avg_ns, u64::MAX / 2);
}

#[test]
fn feedback_edge_reads_disconnected_but_others_run_first() {
    let mut ws = Workspace::<u32, u32>::new();
    let a = ws.add_module(1, geom(), 0, vec![LineType::Mono, LineType::Mono], vec![LineType::Mono]).unwrap();
    let b = ws.add_module(2, geom(), 0, vec![LineType::Mono], vec![LineType::Mono]).unwrap();
    let src = ws.add_module(3, geom(), 0, vec![], vec![LineType::Mono]).unwrap();
    let sink = ws.add_module(4, geom(), 0, vec![LineType::Mono], vec![]).unwrap();
    ws.connect(InputId(a, 0), OutputId(b, 0)).unwrap();
    ws.connect(InputId(b, 0), OutputId(a, 0)).unwrap();
    ws.connect(InputId(a, 1), OutputId(src, 0)).unwrap();
    ws.connect(InputId(sink, 0), OutputId(a, 0)).unwrap();
    let plan = plan_tick(&ws);
    let order: Vec<ModuleId> = plan.iter().map(|s| s.module).collect();
    assert_eq!(order, vec![b, src, a, sink]);
    assert_eq!(plan[0].inputs, vec![None]);
    assert_eq!(plan[2].inputs, vec![Some(OutputId(b, 0)), Some(OutputId(src, 0))]);
    assert_eq!(plan[3].inputs, vec![Some(OutputId(a, 0))]);
}

#[test]
fn crossfade_weights_both_pictures() {
    use_crossfade_case(255, vec![255, 0, 100]);
    use_crossfade_case(0, vec![0, 255, 50]);
    use_crossfade_case(128, vec![128, 127, 75]);
}

fn use_crossfade_case(fade: u8, expected: Vec<u8>) {
    let a = vec![255u8, 0, 100];
    let b = vec![0u8, 255, 50];
    let mut out = vec![9u8; 4];
    crossfade_line(&mut out, &a, &b, 3, fade);
    assert_eq!(&out[..3], &expected[..]);
    assert_eq!(out[3], 9);
}
