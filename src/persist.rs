//! The saved form of a workspace: the module id sequence and, per module,
//! its parameters, geometry and the output feeding each of its inputs.
use vstd::prelude::*;
use crate::ids::{ModuleId, InputId, OutputId, TerminalId};
use crate::workspace::{Workspace, WindowGeometry, lemma_same_types};
use crate::engine::{CreatedModule, copy_line_types};

verus! {

#[derive(Clone, Debug, PartialEq)]
pub struct SavedModule<P> {
    pub params: P,
    pub geometry: WindowGeometry,
    /// For each input, the output feeding it.
    pub inputs: Vec<Option<OutputId>>,
}

#[derive(Clone, Debug, PartialEq)]
pub struct SavedWorkspace<P> {
    pub module_seq: usize,
    pub modules: Vec<(ModuleId, SavedModule<P>)>,
}

/// Entry `k` of the save is loaded: no earlier entry has its id.
pub open spec fn loads_entry<P>(save: SavedWorkspace<P>, k: int) -> bool {
    forall|j: int| 0 <= j < k ==> (#[trigger] save.modules@[j]).0 != save.modules@[k].0
}

/// The save records output `o` as feeding input `i`, in an entry that is
/// loaded.
pub open spec fn saved_connection<P>(save: SavedWorkspace<P>, i: InputId, o: OutputId) -> bool {
    exists|k: int|
        0 <= k < save.modules@.len() && loads_entry(save, k) && (#[trigger] save.modules@[k]).0
            == i.0 && i.1 < save.modules@[k].1.inputs@.len() && save.modules@[k].1.inputs@[i.1 as int]
            == Some(o)
}

/// Output `o` may feed input `i` in `ws`: both terminals exist with one
/// line type.
pub open spec fn typechecks<P, I>(ws: Workspace<P, I>, i: InputId, o: OutputId) -> bool {
    &&& ws.spec_terminal_type(TerminalId::Input(i)) is Some
    &&& ws.spec_terminal_type(TerminalId::Input(i)) == ws.spec_terminal_type(TerminalId::Output(o))
}

/// Input `i` of saved entry `k` is connected in `ws` as saved, if the saved
/// output typechecks against the modules of `typing`.
pub open spec fn connection_restored<P, I>(
    save: SavedWorkspace<P>,
    typing: Workspace<P, I>,
    ws: Workspace<P, I>,
    k: int,
    i: int,
) -> bool {
    match save.modules@[k].1.inputs@[i] {
        Some(o) => typechecks(typing, InputId(save.modules@[k].0, i as usize), o) ==> ws.connection(
            InputId(save.modules@[k].0, i as usize),
        ) == Some(o),
        None => true,
    }
}

/// Entry `k` came back as module `m`.
pub open spec fn module_restored<P: Clone, I: Clone>(
    save: SavedWorkspace<P>,
    created: Seq<CreatedModule<I>>,
    ws: Workspace<P, I>,
    k: int,
) -> bool {
    let s = save.modules@[k];
    let c = created[k];
    ws.module(s.0) matches Some(m) && cloned(s.1.params, m.params) && m.geometry == s.1.geometry
        && cloned(c.indication, m.indication) && m.inputs == c.inputs@ && m.outputs == c.outputs@
}

/// `save` is the saved form of `ws`: its sequence, and each module in
/// order with its id, parameters, geometry and the output feeding each
/// input.
pub open spec fn saved_from<P: Clone, I: Clone>(ws: Workspace<P, I>, save: SavedWorkspace<P>) -> bool {
    &&& save.module_seq == ws.module_seq
    &&& save.modules@.len() == ws.modules@.len()
    &&& forall|k: int|
            0 <= k < ws.modules@.len() ==> {
                let m = #[trigger] ws.modules@[k];
                let s = save.modules@[k];
                &&& s.0 == m.id
                &&& cloned(m.params, s.1.params)
                &&& s.1.geometry == m.geometry
                &&& s.1.inputs@.len() == m.inputs@.len()
                &&& forall|i: int|
                    0 <= i < m.inputs@.len() ==> #[trigger] s.1.inputs@[i] == ws.connection(
                        InputId(m.id, i as usize),
                    )
            }
}

/// `r` is what loading `save` gives, with `created[k]` built from entry
/// `k`: the saved sequence is kept, every saved id is a module, built from
/// the first entry with that id, nothing else is, each connection was
/// saved, and each saved connection of a loaded entry that typechecks is
/// restored.
pub open spec fn loaded_from<P: Clone, I: Clone>(
    save: SavedWorkspace<P>,
    created: Seq<CreatedModule<I>>,
    r: Workspace<P, I>,
) -> bool {
    &&& r.module_seq == save.module_seq
    &&& forall|k: int| 0 <= k < save.modules@.len() ==> r.has_module((#[trigger] save.modules@[k]).0)
    &&& forall|k: int|
        0 <= k < save.modules@.len() && #[trigger] loads_entry(save, k) ==> module_restored(
            save,
            created,
            r,
            k,
        )
    &&& forall|x: ModuleId|
        #[trigger] r.has_module(x) ==> exists|k: int|
            0 <= k < save.modules@.len() && loads_entry(save, k) && (#[trigger] save.modules@[k]).0 == x
    &&& forall|i: InputId|
        (#[trigger] r.connection(i) matches Some(o) ==> saved_connection(save, i, o))
    &&& forall|k: int, i: int|
        0 <= k < save.modules@.len() && loads_entry(save, k) && 0 <= i
            < save.modules@[k].1.inputs@.len() ==> #[trigger] connection_restored(
            save,
            r,
            r,
            k,
            i,
        )
}

impl<P: Clone, I: Clone> Workspace<P, I> {
    /// The saved form: every module in ascending id order with its
    /// parameters, geometry and the output feeding each input.
    pub fn save(&self) -> (r: SavedWorkspace<P>)
        requires
            self.wf(),
        ensures
            saved_from(*self, r),
    {
        let mut modules: Vec<(ModuleId, SavedModule<P>)> = Vec::new();
        let mut k: usize = 0;
        while k < self.modules.len()
            invariant
                self.wf(),
                k <= self.modules@.len(),
                modules@.len() == k,
                forall|j: int|
                    0 <= j < k ==> {
                        let m = #[trigger] self.modules@[j];
                        let s = modules@[j];
                        &&& s.0 == m.id
                        &&& cloned(m.params, s.1.params)
                        &&& s.1.geometry == m.geometry
                        &&& s.1.inputs@.len() == m.inputs@.len()
                        &&& forall|i: int|
                            0 <= i < m.inputs@.len() ==> #[trigger] s.1.inputs@[i]
                                == self.connection(InputId(m.id, i as usize))
                    },
            decreases self.modules@.len() - k,
        {
            let m = &self.modules[k];
            let mut inputs: Vec<Option<OutputId>> = Vec::new();
            let mut i: usize = 0;
            while i < m.inputs.len()
                invariant
                    self.wf(),
                    k < self.modules@.len(),
                    *m == self.modules@[k as int],
                    i <= m.inputs@.len(),
                    inputs@.len() == i,
                    forall|x: int|
                        0 <= x < i ==> #[trigger] inputs@[x] == self.connection(
                            InputId(m.id, x as usize),
                        ),
                decreases m.inputs@.len() - i,
            {
                inputs.push(self.get_connection(InputId(m.id, i)));
                i = i + 1;
            }
            modules.push((m.id, SavedModule { params: m.params.clone(), geometry: m.geometry, inputs }));
            k = k + 1;
        }
        SavedWorkspace { module_seq: self.module_seq, modules }
    }

    /// Rebuilds a workspace from its saved form, keeping its sequence;
    /// `created[k]` is what constructing the `k`-th saved module gave. Every
    /// saved module comes back (of two entries with one id, the first), and
    /// a saved connection that does not typecheck against the loaded modules
    /// is dropped. Connections are made after all modules, so they may name
    /// later entries.
    #[verifier::rlimit(60)]
    pub fn load(save: &SavedWorkspace<P>, created: &Vec<CreatedModule<I>>) -> (r: Self)
        requires
            created@.len() == save.modules@.len(),
        ensures
            r.wf(),
            loaded_from(*save, created@, r),
    {
        let mut ws: Workspace<P, I> = Workspace {
            module_seq: save.module_seq,
            modules: Vec::new(),
            connections: Vec::new(),
        };
        let n = save.modules.len();
        let mut loaded: Vec<bool> = Vec::new();
        let mut k: usize = 0;
        while k < n
            invariant
                n == save.modules@.len(),
                created@.len() == n,
                k <= n,
                ws.wf(),
                ws.module_seq == save.module_seq,
                ws.connections@.len() == 0,
                loaded@.len() == k,
                forall|j: int| 0 <= j < k ==> #[trigger] loaded@[j] == loads_entry(*save, j),
                forall|x: ModuleId|
                    #[trigger] ws.has_module(x) ==> exists|j: int|
                        0 <= j < k && loads_entry(*save, j) && (#[trigger] save.modules@[j]).0 == x,
                forall|j: int|
                    0 <= j < k ==> ws.has_module((#[trigger] save.modules@[j]).0),
                forall|j: int|
                    0 <= j < k && #[trigger] loads_entry(*save, j) ==> module_restored(
                        *save,
                        created@,
                        ws,
                        j,
                    ),
            decreases n - k,
        {
            let id = save.modules[k].0;
            let params = save.modules[k].1.params.clone();
            let geometry = save.modules[k].1.geometry;
            let indication = created[k].indication.clone();
            let inputs = copy_line_types(&created[k].inputs);
            let outputs = copy_line_types(&created[k].outputs);
            let ghost pre = ws;
            proof {
                if !pre.has_module(id) {
                    assert forall|j: int| 0 <= j < k implies (#[trigger] save.modules@[j]).0 != id by {
                        if save.modules@[j].0 == id {
                            assert(pre.has_module(save.modules@[j].0));
                        }
                    }
                }
                if pre.has_module(id) {
                    let j = choose|j: int|
                        0 <= j < k && loads_entry(*save, j) && (#[trigger] save.modules@[j]).0 == id;
                    assert(!loads_entry(*save, k as int));
                }
            }
            let restored = ws.restore_module(id, params, geometry, indication, inputs, outputs);
            loaded.push(restored);
            proof {
                assert(restored == loads_entry(*save, k as int));
                assert forall|j: int| 0 <= j < k + 1 implies #[trigger] loaded@[j] == loads_entry(*save, j) by {
                    if j < k {
                        assert(loaded@[j] == loaded@.drop_last()[j]);
                    }
                }
                assert forall|x: ModuleId|
                    #[trigger] ws.has_module(x) implies exists|j: int|
                        0 <= j < k + 1 && loads_entry(*save, j) && (#[trigger] save.modules@[j]).0 == x by {
                    if x != id {
                        assert(ws.module(x) == pre.module(x));
                        assert(pre.has_module(x));
                    } else if !pre.has_module(id) {
                        assert(restored);
                    } else {
                        assert(ws.module(x) == pre.module(x) || restored);
                    }
                }
                assert forall|j: int|
                    0 <= j < k + 1 implies ws.has_module((#[trigger] save.modules@[j]).0) by {
                    let x = save.modules@[j].0;
                    if x != id {
                        assert(ws.module(x) == pre.module(x));
                    } else if restored {
                        assert(ws.module(id) is Some);
                    }
                }
                assert forall|j: int|
                    0 <= j < k + 1 && #[trigger] loads_entry(*save, j) implies module_restored(
                        *save,
                        created@,
                        ws,
                        j,
                    ) by {
                    if j < k {
                        assert(save.modules@[j].0 != save.modules@[k as int].0 || !restored);
                        if restored {
                            assert(ws.module(save.modules@[j].0) == pre.module(save.modules@[j].0));
                        }
                    }
                }
            }
            k = k + 1;
        }
        let ghost typing = ws;
        let mut k: usize = 0;
        while k < n
            invariant
                n == save.modules@.len(),
                k <= n,
                loaded@.len() == n,
                forall|j: int| 0 <= j < n ==> #[trigger] loaded@[j] == loads_entry(*save, j),
                ws.wf(),
                typing.wf(),
                ws.same_modules(typing),
                forall|i: InputId|
                    #[trigger] ws.connection(i) matches Some(o) ==> saved_connection(*save, i, o),
                forall|j: int, i: int|
                    0 <= j < k && loads_entry(*save, j) && 0 <= i < save.modules@[j].1.inputs@.len()
                        ==> #[trigger] connection_restored(*save, typing, ws, j, i),
            decreases n - k,
        {
            if loaded[k] {
                let id = save.modules[k].0;
                let n_inputs = save.modules[k].1.inputs.len();
                let mut i: usize = 0;
                while i < n_inputs
                    invariant
                        n == save.modules@.len(),
                        k < n,
                        loads_entry(*save, k as int),
                        id == save.modules@[k as int].0,
                        n_inputs == save.modules@[k as int].1.inputs@.len(),
                        i <= n_inputs,
                        ws.wf(),
                        typing.wf(),
                        ws.same_modules(typing),
                        forall|j: InputId|
                            #[trigger] ws.connection(j) matches Some(o) ==> saved_connection(*save, j, o),
                        forall|j: int, i2: int|
                            0 <= j < k && loads_entry(*save, j) && 0 <= i2 < save.modules@[j].1.inputs@.len()
                                ==> #[trigger] connection_restored(*save, typing, ws, j, i2),
                        forall|i2: int|
                            0 <= i2 < i ==> #[trigger] connection_restored(*save, typing, ws, k as int, i2),
                    decreases n_inputs - i,
                {
                    match save.modules[k].1.inputs[i] {
                        Some(o) => {
                            let ghost pre = ws;
                            proof {
                                lemma_same_types(pre, typing);
                            }
                            let _ = ws.connect(InputId(id, i), o);
                            proof {
                                assert(saved_connection(*save, InputId(id, i), o));
                                assert forall|j: InputId|
                                    (#[trigger] ws.connection(j)) is Some implies saved_connection(
                                        *save,
                                        j,
                                        ws.connection(j)->0,
                                    ) by {
                                    if j != InputId(id, i) {
                                        assert(ws.connection(j) == pre.connection(j));
                                    }
                                }
                                assert forall|j: int, i2: int|
                                    0 <= j < k && loads_entry(*save, j) && 0 <= i2
                                        < save.modules@[j].1.inputs@.len() implies #[trigger] connection_restored(
                                        *save,
                                        typing,
                                        ws,
                                        j,
                                        i2,
                                    ) by {
                                    assert(connection_restored(*save, typing, pre, j, i2));
                                    assert(save.modules@[j].0 != id);
                                    let inp = InputId(save.modules@[j].0, i2 as usize);
                                    assert(inp != InputId(id, i));
                                    assert(ws.connection(inp) == pre.connection(inp));
                                }
                                assert forall|i2: int|
                                    0 <= i2 < i + 1 implies #[trigger] connection_restored(
                                        *save,
                                        typing,
                                        ws,
                                        k as int,
                                        i2,
                                    ) by {
                                    if i2 < i {
                                        assert(connection_restored(*save, typing, pre, k as int, i2));
                                        let inp = InputId(id, i2 as usize);
                                        assert(inp != InputId(id, i));
                                        assert(ws.connection(inp) == pre.connection(inp));
                                    }
                                }
                            }
                        },
                        None => {},
                    }
                    i = i + 1;
                }
            }
            k = k + 1;
        }
        proof {
            lemma_same_types(ws, typing);
            assert forall|k: int| 0 <= k < save.modules@.len() implies ws.has_module(
                (#[trigger] save.modules@[k]).0,
            ) by {
                assert(typing.has_module(save.modules@[k].0));
                assert(ws.module(save.modules@[k].0) == typing.module(save.modules@[k].0));
            }
            assert forall|k: int, i: int|
                0 <= k < save.modules@.len() && loads_entry(*save, k) && 0 <= i
                    < save.modules@[k].1.inputs@.len() implies #[trigger] connection_restored(
                    *save,
                    ws,
                    ws,
                    k,
                    i,
                ) by {
                assert(connection_restored(*save, typing, ws, k, i));
            }
            assert forall|k: int|
                0 <= k < save.modules@.len() && #[trigger] loads_entry(*save, k) implies module_restored(
                    *save,
                    created@,
                    ws,
                    k,
                ) by {
                assert(module_restored(*save, created@, typing, k));
            }
            assert forall|x: ModuleId|
                #[trigger] ws.has_module(x) implies exists|k: int|
                    0 <= k < save.modules@.len() && loads_entry(*save, k) && (#[trigger] save.modules@[k]).0 == x by {
                assert(ws.module(x) == typing.module(x));
                assert(typing.has_module(x));
            }
        }
        ws
    }
}

} // verus!
