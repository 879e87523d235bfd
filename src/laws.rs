//! Properties of the engine that hold across operations.
use vstd::prelude::*;
use crate::ids::{ModuleId, InputId, TerminalId, SessionId};
use crate::engine::{allocates_session, CreatedModule};
use crate::persist::{SavedWorkspace, saved_from, loaded_from, loads_entry, connection_restored, module_restored, typechecks};
use crate::workspace::lemma_module_at;
use crate::schedule::{TickStep, runs_each_once, routes_inputs, runs_before};
use crate::workspace::{Workspace, lemma_connection_at};

verus! {

/// Referential integrity: in a well-formed workspace (every operation keeps
/// it so) each connection joins an existing input to an existing output of
/// the same line type.
pub proof fn lemma_referential_integrity<P, I>(ws: Workspace<P, I>, i: InputId)
    requires
        ws.wf(),
    ensures
        ws.connection(i) matches Some(o) ==> {
            &&& ws.spec_terminal_type(TerminalId::Input(i)) is Some
            &&& ws.spec_terminal_type(TerminalId::Input(i)) == ws.spec_terminal_type(
                TerminalId::Output(o),
            )
        },
{
    if ws.has_connection(i) {
        let k = choose|k: int| 0 <= k < ws.connections@.len() && ws.connections@[k].0 == i;
        lemma_connection_at(ws, k);
        assert(ws.connections_valid());
        let c = ws.connections@[k];
        assert(ws.spec_terminal_type(TerminalId::Input(c.0)) is Some);
    }
}

/// At most one inbound edge per input: two connections on the same input
/// are the same entry.
pub proof fn lemma_one_edge_per_input<P, I>(ws: Workspace<P, I>, a: int, b: int)
    requires
        ws.wf(),
        0 <= a < ws.connections@.len(),
        0 <= b < ws.connections@.len(),
        ws.connections@[a].0 == ws.connections@[b].0,
    ensures
        a == b,
{
    if a < b {
        assert(ws.connections@[a].0 != ws.connections@[b].0);
    } else if b < a {
        assert(ws.connections@[b].0 != ws.connections@[a].0);
    }
}

/// Module ids increase in allocation order: `first` was handed out by
/// `CreateModule`, leaving the sequence at `first.0 + 1` in state `a_next`;
/// `second` is handed out later, in a state `b` whose sequence has not gone
/// back (no operation lowers it), as the first unused id at or after that
/// sequence. Then `second` is above `first`, and unused in `b`.
pub proof fn lemma_module_ids_increase<P, I>(
    first: ModuleId,
    a_next: Workspace<P, I>,
    b: Workspace<P, I>,
    second: ModuleId,
)
    requires
        a_next.module_seq == first.0 + 1,
        a_next.module_seq <= b.module_seq,
        b.is_next_id(second),
    ensures
        first.0 < second.0,
        !b.has_module(second),
{
}

/// Session ids increase in allocation order: `first` was handed out when
/// the session sequence stood at `seq1`, `second` later at `seq2`, and the
/// sequence only grows between.
pub proof fn lemma_session_ids_increase(first: SessionId, seq1: nat, seq1_next: nat, second: SessionId, seq2: nat)
    requires
        allocates_session(seq1, seq1_next, first),
        seq1_next <= seq2,
        second.value() == seq2,
    ensures
        first.value() < second.value(),
{
}

/// Saving a well-formed workspace and loading the result, with each module
/// rebuilt with its own terminals, gives back the same sequence, the same
/// modules with their geometry and terminals, and the same connections.
pub proof fn lemma_save_load_round_trip<P: Clone, I: Clone>(
    ws: Workspace<P, I>,
    save: SavedWorkspace<P>,
    created: Seq<CreatedModule<I>>,
    r: Workspace<P, I>,
)
    requires
        ws.wf(),
        saved_from(ws, save),
        created.len() == save.modules@.len(),
        forall|k: int|
            0 <= k < created.len() ==> (#[trigger] created[k]).inputs@ == ws.modules@[k].inputs@
                && created[k].outputs@ == ws.modules@[k].outputs@,
        loaded_from(save, created, r),
    ensures
        r.module_seq == ws.module_seq,
        forall|x: ModuleId| #[trigger] r.has_module(x) == ws.has_module(x),
        forall|x: ModuleId|
            ws.has_module(x) ==> {
                let m0 = ws.module(x)->0;
                let m1 = #[trigger] r.module(x)->0;
                &&& m1.geometry == m0.geometry
                &&& m1.inputs == m0.inputs
                &&& m1.outputs == m0.outputs
            },
        forall|i: InputId| #[trigger] r.connection(i) == ws.connection(i),
        forall|k: int|
            0 <= k < ws.modules@.len() ==> {
                let m0 = #[trigger] ws.modules@[k];
                &&& cloned(m0.params, save.modules@[k].1.params)
                &&& r.module(m0.id) matches Some(m1) && cloned(save.modules@[k].1.params, m1.params)
            },
{
    let n = ws.modules@.len();
    assert forall|k: int| 0 <= k < n implies #[trigger] loads_entry(save, k) by {
        assert(save.modules@[k].0 == ws.modules@[k].id);
        assert forall|j: int| 0 <= j < k implies (#[trigger] save.modules@[j]).0 != save.modules@[k].0 by {
            assert(save.modules@[j].0 == ws.modules@[j].id);
            assert(ws.modules@[j].id.0 < ws.modules@[k].id.0);
        }
    }
    assert forall|k: int| 0 <= k < n implies #[trigger] r.module(ws.modules@[k].id) matches Some(m) && m.geometry
        == ws.modules@[k].geometry && m.inputs == ws.modules@[k].inputs@ && m.outputs
        == ws.modules@[k].outputs@ by {
        assert(loads_entry(save, k));
        assert(module_restored(save, created, r, k));
        assert(save.modules@[k].0 == ws.modules@[k].id);
        assert(created[k].inputs@ == ws.modules@[k].inputs@);
    }
    assert forall|k: int| 0 <= k < n implies {
        let m0 = #[trigger] ws.modules@[k];
        &&& cloned(m0.params, save.modules@[k].1.params)
        &&& r.module(m0.id) matches Some(m1) && cloned(save.modules@[k].1.params, m1.params)
    } by {
        assert(loads_entry(save, k));
        assert(module_restored(save, created, r, k));
        assert(save.modules@[k].0 == ws.modules@[k].id);
    }
    assert forall|x: ModuleId| #[trigger] r.has_module(x) == ws.has_module(x) by {
        if ws.has_module(x) {
            let k = choose|k: int| 0 <= k < n && ws.modules@[k].id == x;
            assert(r.module(ws.modules@[k].id) is Some);
        }
        if r.has_module(x) {
            let k = choose|k: int|
                0 <= k < save.modules@.len() && loads_entry(save, k) && (#[trigger] save.modules@[k]).0 == x;
            assert(ws.modules@[k].id == x);
        }
    }
    assert forall|x: ModuleId| ws.has_module(x) implies {
        let m0 = ws.module(x)->0;
        let m1 = #[trigger] r.module(x)->0;
        &&& m1.geometry == m0.geometry
        &&& m1.inputs == m0.inputs
        &&& m1.outputs == m0.outputs
    } by {
        let k = choose|k: int| 0 <= k < n && ws.modules@[k].id == x;
        lemma_module_at(ws, k);
        assert(r.module(ws.modules@[k].id) is Some);
    }
    assert forall|t: TerminalId| #[trigger] r.spec_terminal_type(t) == ws.spec_terminal_type(t) by {
        let x = t.module_of();
        if ws.has_module(x) {
            let k = choose|k: int| 0 <= k < n && ws.modules@[k].id == x;
            lemma_module_at(ws, k);
            assert(r.module(ws.modules@[k].id) is Some);
        } else {
            assert(!r.has_module(x));
        }
    }
    assert forall|i: InputId| #[trigger] r.connection(i) == ws.connection(i) by {
        if ws.connection(i) is Some {
            let o = ws.connection(i)->0;
            lemma_referential_integrity(ws, i);
            assert(ws.spec_terminal_type(TerminalId::Input(i)) is Some);
            assert(ws.has_module(i.0));
            let k = choose|k: int| 0 <= k < n && ws.modules@[k].id == i.0;
            lemma_module_at(ws, k);
            assert((i.1 as int) < ws.modules@[k].inputs@.len());
            assert(InputId(ws.modules@[k].id, (i.1 as int) as usize) == i);
            assert(save.modules@[k].1.inputs@[i.1 as int] == Some(o));
            assert(r.spec_terminal_type(TerminalId::Input(i)) == ws.spec_terminal_type(TerminalId::Input(i)));
            assert(r.spec_terminal_type(TerminalId::Output(o)) == ws.spec_terminal_type(TerminalId::Output(o)));
            assert(typechecks(r, i, o));
            assert(loads_entry(save, k));
            assert(connection_restored(save, r, r, k, i.1 as int));
        }
        if r.connection(i) is Some {
            let o = r.connection(i)->0;
            assert(crate::persist::saved_connection(save, i, o));
            let k = choose|k: int|
                0 <= k < save.modules@.len() && loads_entry(save, k) && (#[trigger] save.modules@[k]).0
                    == i.0 && i.1 < save.modules@[k].1.inputs@.len() && save.modules@[k].1.inputs@[i.1 as int]
                    == Some(o);
            assert(save.modules@[k].1.inputs@[i.1 as int] == ws.connection(InputId(ws.modules@[k].id, (i.1 as int) as usize)));
            assert(InputId(ws.modules@[k].id, (i.1 as int) as usize) == i);
        }
    }
}

/// Cycle tolerance: in a tick plan, an input whose producer runs at the
/// same step or later (as on the edge that closes a cycle) reads
/// Disconnected.
pub proof fn lemma_later_producer_reads_disconnected<P, I>(
    ws: Workspace<P, I>,
    plan: Seq<TickStep>,
    s: int,
    t: int,
    i: int,
)
    requires
        runs_each_once(ws, plan),
        routes_inputs(ws, plan),
        0 <= s <= t < plan.len(),
        0 <= i < plan[s].inputs@.len(),
        ws.connection(InputId(plan[s].module, i as usize)) is Some,
        (ws.connection(InputId(plan[s].module, i as usize))->0).0 == plan[t].module,
    ensures
        plan[s].inputs@[i] is None,
{
    let m = plan[t].module;
    if runs_before(plan, s, m) {
        let w = choose|w: int| 0 <= w < s && (#[trigger] plan[w]).module == m;
        assert(plan[w].module != plan[t].module);
    }
    assert(plan[s].inputs@[i] == crate::schedule::routed_input(ws, plan, s, i));
}

/// Two modules feeding each other: whichever runs first in the tick reads
/// Disconnected on that input.
pub proof fn lemma_two_cycle_first_reads_disconnected<P, I>(
    ws: Workspace<P, I>,
    plan: Seq<TickStep>,
    sa: int,
    sb: int,
)
    requires
        runs_each_once(ws, plan),
        routes_inputs(ws, plan),
        0 <= sa < plan.len(),
        0 <= sb < plan.len(),
        plan[sa].inputs@.len() > 0,
        plan[sb].inputs@.len() > 0,
        ws.connection(InputId(plan[sa].module, 0)) is Some,
        (ws.connection(InputId(plan[sa].module, 0))->0).0 == plan[sb].module,
        ws.connection(InputId(plan[sb].module, 0)) is Some,
        (ws.connection(InputId(plan[sb].module, 0))->0).0 == plan[sa].module,
    ensures
        sa <= sb ==> plan[sa].inputs@[0] is None,
        sb <= sa ==> plan[sb].inputs@[0] is None,
{
    if sa <= sb {
        lemma_later_producer_reads_disconnected(ws, plan, sa, sb, 0);
    }
    if sb <= sa {
        lemma_later_producer_reads_disconnected(ws, plan, sb, sa, 0);
    }
}

} // verus!
