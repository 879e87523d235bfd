//! The per-tick scheduler: the run order of the modules, found by a
//! depth-first walk backwards along connections from the terminal modules,
//! and the routing of produced buffers to the inputs that read them.
use vstd::prelude::*;
use crate::ids::{ModuleId, InputId, OutputId};
use crate::workspace::Workspace;

verus! {

/// Number of positions of `s` that are still `false`.
pub open spec fn count_unseen(s: Seq<bool>) -> nat
    decreases s.len(),
{
    if s.len() == 0 {
        0
    } else {
        count_unseen(s.drop_last()) + if s.last() {
            0nat
        } else {
            1nat
        }
    }
}

proof fn lemma_count_mark(s: Seq<bool>, k: int)
    requires
        0 <= k < s.len(),
        !s[k],
    ensures
        count_unseen(s.update(k, true)) + 1 == count_unseen(s),
    decreases s.len(),
{
    if k == s.len() - 1 {
        assert(s.update(k, true).drop_last() =~= s.drop_last());
    } else {
        assert(s.update(k, true).drop_last() =~= s.drop_last().update(k, true));
        lemma_count_mark(s.drop_last(), k);
    }
}

proof fn lemma_count_mono(a: Seq<bool>, b: Seq<bool>)
    requires
        a.len() == b.len(),
        forall|i: int| 0 <= i < a.len() && a[i] ==> b[i],
    ensures
        count_unseen(b) <= count_unseen(a),
    decreases a.len(),
{
    if a.len() > 0 {
        lemma_count_mono(a.drop_last(), b.drop_last());
    }
}

/// Position of the module that feeds input `i` of the module at position
/// `k`, if that input is connected.
pub open spec fn spec_source<P, I>(ws: Workspace<P, I>, k: int, i: int) -> Option<int> {
    match ws.connection(InputId(ws.modules@[k].id, i as usize)) {
        Some(o) => Some(
            choose|j: int| 0 <= j < ws.modules@.len() && ws.modules@[j].id == o.0,
        ),
        None => None,
    }
}

/// Module `a` feeds an input of module `b`.
pub open spec fn feeds<P, I>(ws: Workspace<P, I>, a: ModuleId, b: ModuleId) -> bool {
    exists|i: usize| #[trigger] feeds_input(ws, a, b, i)
}

/// Module `a` feeds input `i` of module `b`.
pub open spec fn feeds_input<P, I>(ws: Workspace<P, I>, a: ModuleId, b: ModuleId, i: usize) -> bool {
    match ws.connection(InputId(b, i)) {
        Some(o) => o.0 == a,
        None => false,
    }
}

proof fn lemma_contains_cons<A>(a: A, s: Seq<A>, v: A)
    ensures
        (seq![a] + s).contains(v) <==> (v == a || s.contains(v)),
{
    let c = seq![a] + s;
    if c.contains(v) {
        let w = choose|w: int| 0 <= w < c.len() && c[w] == v;
        if w > 0 {
            assert(s[w - 1] == v);
        }
    }
    if v == a {
        assert(c[0] == v);
    }
    if s.contains(v) {
        let w = choose|w: int| 0 <= w < s.len() && s[w] == v;
        assert(c[w + 1] == v);
    }
}

proof fn lemma_chain_cons<P, I>(ws: Workspace<P, I>, a: ModuleId, s: Seq<ModuleId>)
    requires
        is_chain(ws, s),
        s.len() > 0 ==> feeds(ws, a, s[0]),
    ensures
        is_chain(ws, seq![a] + s),
{
    let c = seq![a] + s;
    assert forall|t: int| 0 <= t < c.len() - 1 implies feeds(ws, #[trigger] c[t], c[t + 1]) by {
        if t > 0 {
            assert(c[t] == s[t - 1]);
            assert(c[t + 1] == s[t]);
        }
    }
}

/// Each module of `path` feeds the next one.
pub open spec fn is_chain<P, I>(ws: Workspace<P, I>, path: Seq<ModuleId>) -> bool {
    forall|t: int| 0 <= t < path.len() - 1 ==> feeds(ws, #[trigger] path[t], path[t + 1])
}

/// Module `m` feeds module `n` through a chain of connections; when `n`
/// also feeds `m`, the two lie on a cycle.
pub open spec fn reaches<P, I>(ws: Workspace<P, I>, m: ModuleId, n: ModuleId) -> bool {
    exists|path: Seq<ModuleId>|
        path.len() >= 2 && path[0] == m && path.last() == n && #[trigger] is_chain(ws, path)
}

/// Every source of the module at index `q` of `order` comes earlier in
/// `order`, unless that module reaches its source.
pub open spec fn sources_first<P, I>(ws: Workspace<P, I>, order: Seq<usize>, q: int) -> bool {
    forall|i: int|
        0 <= i < ws.modules@[order[q] as int].inputs@.len() ==> #[trigger] source_first(ws, order, q, i)
}

pub open spec fn source_first<P, I>(ws: Workspace<P, I>, order: Seq<usize>, q: int, i: int) -> bool {
    match spec_source(ws, order[q] as int, i) {
        Some(j) => j == order[q] as int || (exists|q2: int| 0 <= q2 < q && order[q2] as int == j)
            || reaches(ws, ws.modules@[order[q] as int].id, ws.modules@[j].id),
        None => true,
    }
}

/// Modules seen but not finished are exactly those on the walk's stack.
pub open spec fn in_progress<P, I>(ws: Workspace<P, I>, seen: Seq<bool>, order: Seq<usize>, anc: Seq<ModuleId>) -> bool {
    forall|x: int|
        #![trigger seen[x]]
        0 <= x < seen.len() ==> ((seen[x] && !order.contains(x as usize)) <==> anc.contains(
            ws.modules@[x].id,
        ))
}

/// The depth-first walk from the module at position `k`: unless it was
/// entered already, enter it, walk the modules feeding its inputs in index
/// order, then append it. Returns the entered marks and the order so far.
/// `fuel` bounds the depth; the number of modules not entered yet is enough.
pub open spec fn walk<P, I>(
    ws: Workspace<P, I>,
    k: int,
    seen: Seq<bool>,
    order: Seq<usize>,
    fuel: nat,
) -> (Seq<bool>, Seq<usize>)
    decreases fuel, 0int,
{
    if fuel == 0 || seen[k] {
        (seen, order)
    } else {
        let r = walk_inputs(ws, k, 0, seen.update(k, true), order, (fuel - 1) as nat);
        (r.0, r.1.push(k as usize))
    }
}

/// The walk through inputs `i..` of the module at position `k`.
pub open spec fn walk_inputs<P, I>(
    ws: Workspace<P, I>,
    k: int,
    i: int,
    seen: Seq<bool>,
    order: Seq<usize>,
    fuel: nat,
) -> (Seq<bool>, Seq<usize>)
    decreases fuel, ws.modules@[k].inputs@.len() - i,
{
    if i < 0 || i >= ws.modules@[k].inputs@.len() {
        (seen, order)
    } else {
        let r = match spec_source(ws, k, i) {
            Some(j) => walk(ws, j, seen, order, fuel),
            None => (seen, order),
        };
        walk_inputs(ws, k, i + 1, r.0, r.1, fuel)
    }
}

/// The module at position `k` feeds no input.
pub open spec fn is_terminal<P, I>(ws: Workspace<P, I>, k: int) -> bool {
    forall|c: int| 0 <= c < ws.connections@.len() ==> (#[trigger] ws.connections@[c]).1.0 != ws.modules@[k].id
}

/// Walks from positions `k..` in ascending order: only from terminal
/// modules when `terminals_only`, else from every module.
pub open spec fn walk_from<P, I>(
    ws: Workspace<P, I>,
    terminals_only: bool,
    k: int,
    seen: Seq<bool>,
    order: Seq<usize>,
    fuel: nat,
) -> (Seq<bool>, Seq<usize>)
    decreases ws.modules@.len() - k,
{
    if k < 0 || k >= ws.modules@.len() {
        (seen, order)
    } else {
        let r = if !terminals_only || is_terminal(ws, k) {
            walk(ws, k, seen, order, fuel)
        } else {
            (seen, order)
        };
        walk_from(ws, terminals_only, k + 1, r.0, r.1, fuel)
    }
}

/// The run order of a tick, as positions: the post-order of a depth-first
/// walk from the terminal modules in ascending id order, following inputs
/// in index order and stopping at modules already entered; then the same
/// from every module left, which only a cycle without a terminal leaves.
pub open spec fn spec_run_order<P, I>(ws: Workspace<P, I>) -> Seq<usize> {
    let n = ws.modules@.len();
    let fuel = (n + 1) as nat;
    let t = walk_from(ws, true, 0, Seq::new(n, |x: int| false), Seq::empty(), fuel);
    walk_from(ws, false, 0, t.0, t.1, fuel).1
}

proof fn lemma_count_le_len(s: Seq<bool>)
    ensures
        count_unseen(s) <= s.len(),
    decreases s.len(),
{
    if s.len() > 0 {
        lemma_count_le_len(s.drop_last());
    }
}

/// A partial run order: distinct positions, each marked seen.
pub open spec fn order_ok(order: Seq<usize>, seen: Seq<bool>) -> bool {
    &&& order.no_duplicates()
    &&& forall|t: int|
        0 <= t < order.len() ==> (#[trigger] order[t]) < seen.len() && seen[order[t] as int]
}

fn source_index<P, I>(ws: &Workspace<P, I>, k: usize, i: usize) -> (r: Option<usize>)
    requires
        ws.wf(),
        k < ws.modules@.len(),
    ensures
        r is None <==> spec_source(*ws, k as int, i as int) is None,
        r matches Some(j) ==> j < ws.modules@.len() && spec_source(*ws, k as int, i as int)
            == Some(j as int),
        r matches Some(j) ==> ws.connection(InputId(ws.modules@[k as int].id, i)) is Some
            && ws.modules@[j as int].id == (ws.connection(InputId(ws.modules@[k as int].id, i))->0).0,
{
    let id = ws.modules[k].id;
    match ws.get_connection(InputId(id, i)) {
        None => None,
        Some(o) => {
            proof {
                let w = choose|w: int|
                    0 <= w < ws.connections@.len() && ws.connections@[w].0 == InputId(id, i);
                crate::workspace::lemma_connection_at(*ws, w);
                assert(ws.connections_valid());
                let c = ws.connections@[w];
                assert(ws.spec_terminal_type(crate::ids::TerminalId::Output(c.1)) is Some);
            }
            match ws.find_module(o.0) {
                None => None,
                Some(j) => {
                    proof {
                        crate::workspace::lemma_module_at(*ws, j as int);
                        let c = choose|c: int|
                            0 <= c < ws.modules@.len() && ws.modules@[c].id == o.0;
                        if c < j {
                            assert(ws.modules@[c].id.0 < ws.modules@[j as int].id.0);
                        } else if j < c {
                            assert(ws.modules@[j as int].id.0 < ws.modules@[c].id.0);
                        }
                    }
                    Some(j)
                },
            }
        },
    }
}

/// Depth-first walk from the module at position `k` along its inputs,
/// appending each module after the modules feeding it.
#[verifier::rlimit(60)]
fn visit<P, I>(
    ws: &Workspace<P, I>,
    k: usize,
    seen: &mut Vec<bool>,
    order: &mut Vec<usize>,
    Ghost(anc): Ghost<Seq<ModuleId>>,
    Ghost(fuel): Ghost<nat>,
)
    requires
        fuel > count_unseen(old(seen)@),
        ws.wf(),
        k < ws.modules@.len(),
        old(seen)@.len() == ws.modules@.len(),
        order_ok(old(order)@, old(seen)@),
        is_chain(*ws, seq![ws.modules@[k as int].id] + anc),
        in_progress(*ws, old(seen)@, old(order)@, anc),
        forall|q: int| 0 <= q < old(order)@.len() ==> #[trigger] sources_first(*ws, old(order)@, q),
    ensures
        (final(seen)@, final(order)@) == walk(*ws, k as int, old(seen)@, old(order)@, fuel),
        in_progress(*ws, final(seen)@, final(order)@, anc),
        forall|q: int| 0 <= q < final(order)@.len() ==> #[trigger] sources_first(*ws, final(order)@, q),
        final(seen)@.len() == old(seen)@.len(),
        final(seen)@[k as int],
        forall|x: int| 0 <= x < old(seen)@.len() && old(seen)@[x] ==> final(seen)@[x],
        order_ok(final(order)@, final(seen)@),
        old(order)@.len() <= final(order)@.len(),
        final(order)@.subrange(0, old(order)@.len() as int) == old(order)@,
        forall|t: int|
            old(order)@.len() <= t < final(order)@.len() ==> !old(seen)@[(
            #[trigger] final(order)@[t]) as int],
        forall|x: int|
            0 <= x < old(seen)@.len() && final(seen)@[x] && !old(seen)@[x]
                ==> final(order)@.contains(x as usize),
    decreases count_unseen(seen@),
{
    if seen[k] {
        return;
    }
    let n_modules = ws.modules.len();
    let ghost seen0 = seen@;
    let ghost order0 = order@;
    let ghost idk = ws.modules@[k as int].id;
    let ghost anc2 = seq![idk] + anc;
    proof {
        assert(!anc.contains(idk)) by {
            assert(!(seen0[k as int] && !order0.contains(k)));
        }
    }
    seen.set(k, true);
    proof {
        assert(in_progress(*ws, seen0, order0, anc));
        lemma_count_mark(seen0, k as int);
        assert(!order0.contains(k)) by {
            if order0.contains(k) {
                let w = choose|w: int| 0 <= w < order0.len() && order0[w] == k;
            }
        }
        assert forall|x: int| 0 <= x < seen@.len() implies ((#[trigger] seen@[x] && !order@.contains(
            x as usize,
        )) <==> anc2.contains(ws.modules@[x].id)) by {
            lemma_contains_cons(idk, anc, ws.modules@[x].id);
            if x != k {
                if ws.modules@[x].id == idk {
                    if x < k {
                        assert(ws.modules@[x].id.0 < ws.modules@[k as int].id.0);
                    } else {
                        assert(ws.modules@[k as int].id.0 < ws.modules@[x].id.0);
                    }
                }
            }
        }
    }
    let n_inputs = ws.modules[k].inputs.len();
    let mut i: usize = 0;
    while i < n_inputs
        invariant
            ws.wf(),
            k < ws.modules@.len(),
            idk == ws.modules@[k as int].id,
            anc2 == seq![idk] + anc,
            is_chain(*ws, anc2),
            !anc.contains(idk),
            n_inputs == ws.modules@[k as int].inputs@.len(),
            i <= n_inputs,
            seen@.len() == seen0.len(),
            seen0.len() == ws.modules@.len(),
            seen0 == old(seen)@,
            fuel > count_unseen(seen0),
            walk_inputs(*ws, k as int, 0, seen0.update(k as int, true), order0, (fuel - 1) as nat)
                == walk_inputs(*ws, k as int, i as int, seen@, order@, (fuel - 1) as nat),
            seen@[k as int],
            forall|x: int| 0 <= x < seen0.len() && seen0[x] ==> seen@[x],
            count_unseen(seen@) < count_unseen(seen0),
            order_ok(order@, seen@),
            order0.len() <= order@.len(),
            order@.subrange(0, order0.len() as int) == order0,
            forall|t: int|
                order0.len() <= t < order@.len() ==> !seen0[(#[trigger] order@[t]) as int],
            forall|t: int| order0.len() <= t < order@.len() ==> (#[trigger] order@[t]) != k,
            forall|x: int|
                0 <= x < seen0.len() && seen@[x] && !seen0[x] && x != k ==> order@.contains(
                    x as usize,
                ),
            in_progress(*ws, seen@, order@, anc2),
            forall|q: int| 0 <= q < order@.len() ==> #[trigger] sources_first(*ws, order@, q),
            forall|i2: int|
                0 <= i2 < i ==> match #[trigger] spec_source(*ws, k as int, i2) {
                    Some(j) => j == k || order@.contains(j as usize) || anc.contains(ws.modules@[j].id),
                    None => true,
                },
        decreases n_inputs - i,
    {
        let ghost seen_i = seen@;
        let ghost order_i = order@;
        match source_index(ws, k, i) {
            None => {
                proof {
                    assert(walk_inputs(*ws, k as int, i as int, seen_i, order_i, (fuel - 1) as nat)
                        == walk_inputs(*ws, k as int, i + 1, seen@, order@, (fuel - 1) as nat));
                }
            },
            Some(j) => {
                let ghost seen1 = seen@;
                let ghost order1 = order@;
                proof {
                    let w = i as usize;
                    assert(feeds_input(*ws, ws.modules@[j as int].id, idk, w));
                    lemma_chain_cons(*ws, ws.modules@[j as int].id, anc2);
                }
                visit(ws, j, seen, order, Ghost(anc2), Ghost((fuel - 1) as nat));
                proof {
                    assert(walk_inputs(*ws, k as int, i as int, seen_i, order_i, (fuel - 1) as nat)
                        == walk_inputs(*ws, k as int, i + 1, seen@, order@, (fuel - 1) as nat));
                    assert forall|t: int|
                        order0.len() <= t < order@.len() implies !seen0[(
                        #[trigger] order@[t]) as int] by {
                        if t < order1.len() {
                            assert(order@[t] == order1[t]);
                        }
                    }
                    assert forall|t: int|
                        order0.len() <= t < order@.len() implies (#[trigger] order@[t]) != k by {
                        if t < order1.len() {
                            assert(order@[t] == order1[t]);
                        } else {
                            assert(!seen1[order@[t] as int]);
                        }
                    }
                    assert forall|x: int|
                        0 <= x < seen0.len() && seen@[x] && !seen0[x] && x != k implies order@.contains(
                            x as usize,
                        ) by {
                        if seen1[x] {
                            let w = choose|w: int| 0 <= w < order1.len() && order1[w] == x as usize;
                            assert(order@[w] == order1[w]);
                        }
                    }
                    lemma_count_mono(seen1, seen@);
                    assert forall|i2: int|
                        0 <= i2 < i + 1 implies match #[trigger] spec_source(*ws, k as int, i2) {
                            Some(j) => j == k || order@.contains(j as usize) || anc.contains(ws.modules@[j].id),
                            None => true,
                        } by {
                        if i2 < i {
                            if let Some(j2) = spec_source(*ws, k as int, i2) {
                                if order1.contains(j2 as usize) {
                                    let w = choose|w: int| 0 <= w < order1.len() && order1[w] == j2 as usize;
                                    assert(order@[w] == order1[w]);
                                }
                            }
                        } else {
                            lemma_contains_cons(idk, anc, ws.modules@[j as int].id);
                            if ws.modules@[j as int].id == idk && j != k {
                                if j < k {
                                    assert(ws.modules@[j as int].id.0 < ws.modules@[k as int].id.0);
                                } else {
                                    assert(ws.modules@[k as int].id.0 < ws.modules@[j as int].id.0);
                                }
                            }
                        }
                    }
                }
            },
        }
        i = i + 1;
    }
    let ghost order2 = order@;
    proof {
        assert(in_progress(*ws, seen@, order2, anc2));
        assert(walk_inputs(*ws, k as int, i as int, seen@, order@, (fuel - 1) as nat) == (seen@, order@));
    }
    order.push(k);
    proof {
        assert(order@ == order2.push(k));
        assert(!order2.contains(k)) by {
            if order2.contains(k) {
                let w = choose|w: int| 0 <= w < order2.len() && order2[w] == k;
                if w < order0.len() {
                    assert(order0[w] == order2[w]);
                    assert(seen0[k as int]);
                }
            }
        }
        assert forall|x: int|
            0 <= x < seen0.len() && seen@[x] && !seen0[x] implies order@.contains(x as usize) by {
            if x == k {
                assert(order@[order2.len() as int] == k);
            } else {
                let w = choose|w: int| 0 <= w < order2.len() && order2[w] == x as usize;
                assert(order@[w] == order2[w]);
            }
        }
        assert(order@.subrange(0, order0.len() as int) =~= order0) by {
            assert(order2.subrange(0, order0.len() as int) == order0);
        }
        assert(ws.modules@.len() == n_modules);
        lemma_push_contains(order2, k);
        lemma_finish_in_progress(*ws, seen@, order2, anc, k);
        lemma_extend_sources_first(*ws, order2, k);
        lemma_new_entry_sources_first(*ws, order2, k, anc);
        assert(walk(*ws, k as int, seen0, order0, fuel) == (seen@, order2.push(k)));
    }
}

/// In a well-formed workspace a connected input's source is a module.
proof fn lemma_source_in_range<P, I>(ws: Workspace<P, I>, k: int, i: int)
    requires
        ws.wf(),
        0 <= k < ws.modules@.len(),
    ensures
        spec_source(ws, k, i) matches Some(j) ==> 0 <= j < ws.modules@.len() && ws.modules@[j].id
            == (ws.connection(InputId(ws.modules@[k].id, i as usize))->0).0,
{
    let input = InputId(ws.modules@[k].id, i as usize);
    if ws.has_connection(input) {
        let w = choose|w: int| 0 <= w < ws.connections@.len() && ws.connections@[w].0 == input;
        crate::workspace::lemma_connection_at(ws, w);
        assert(ws.connections_valid());
        let c = ws.connections@[w];
        assert(ws.spec_terminal_type(crate::ids::TerminalId::Output(c.1)) is Some);
    }
}

proof fn lemma_in_progress_at<P, I>(
    ws: Workspace<P, I>,
    seen: Seq<bool>,
    order: Seq<usize>,
    anc: Seq<ModuleId>,
    x: int,
)
    requires
        in_progress(ws, seen, order, anc),
        0 <= x < seen.len(),
    ensures
        (seen[x] && !order.contains(x as usize)) <==> anc.contains(ws.modules@[x].id),
{
}

proof fn lemma_push_contains(s: Seq<usize>, k: usize)
    ensures
        forall|v: usize| #[trigger] s.push(k).contains(v) <==> (s.contains(v) || v == k),
{
    assert forall|v: usize| #[trigger] s.push(k).contains(v) <==> (s.contains(v) || v == k) by {
        let t = s.push(k);
        if t.contains(v) {
            let w = choose|w: int| 0 <= w < t.len() && t[w] == v;
            if w < s.len() {
                assert(s[w] == v);
            }
        }
        if s.contains(v) {
            let w = choose|w: int| 0 <= w < s.len() && s[w] == v;
            assert(t[w] == v);
        }
        if v == k {
            assert(t[s.len() as int] == v);
        }
    }
}

proof fn lemma_finish_in_progress<P, I>(
    ws: Workspace<P, I>,
    seen: Seq<bool>,
    order: Seq<usize>,
    anc: Seq<ModuleId>,
    k: usize,
)
    requires
        ws.ids_ordered(),
        seen.len() == ws.modules@.len(),
        k < seen.len(),
        seen[k as int],
        seen.len() <= usize::MAX,
        !anc.contains(ws.modules@[k as int].id),
        in_progress(ws, seen, order, seq![ws.modules@[k as int].id] + anc),
        forall|v: usize| #[trigger] order.push(k).contains(v) <==> (order.contains(v) || v == k),
    ensures
        in_progress(ws, seen, order.push(k), anc),
{
    let idk = ws.modules@[k as int].id;
    let anc2 = seq![idk] + anc;
    let o2 = order.push(k);
    assert(in_progress(ws, seen, order, anc2));
    assert forall|x: int| 0 <= x < seen.len() implies ((#[trigger] seen[x] && !o2.contains(
        x as usize,
    )) <==> anc.contains(ws.modules@[x].id)) by {
        lemma_contains_cons(idk, anc, ws.modules@[x].id);
        assert(o2.contains(x as usize) <==> (order.contains(x as usize) || x as usize == k));
        lemma_in_progress_at(ws, seen, order, anc2, x);
        if x != k {
            if ws.modules@[x].id == idk {
                if x < k {
                    assert(ws.modules@[x].id.0 < ws.modules@[k as int].id.0);
                } else {
                    assert(ws.modules@[k as int].id.0 < ws.modules@[x].id.0);
                }
            }
        }
    }
}

proof fn lemma_extend_sources_first<P, I>(ws: Workspace<P, I>, order: Seq<usize>, k: usize)
    requires
        forall|q: int| 0 <= q < order.len() ==> #[trigger] sources_first(ws, order, q),
    ensures
        forall|q: int| 0 <= q < order.len() ==> #[trigger] sources_first(ws, order.push(k), q),
{
    let o2 = order.push(k);
    assert forall|q: int| 0 <= q < order.len() implies #[trigger] sources_first(ws, o2, q) by {
        assert(sources_first(ws, order, q));
        assert(o2[q] == order[q]);
        assert forall|i2: int|
            0 <= i2 < ws.modules@[o2[q] as int].inputs@.len() implies #[trigger] source_first(
                ws,
                o2,
                q,
                i2,
            ) by {
            assert(source_first(ws, order, q, i2));
            if let Some(j) = spec_source(ws, order[q] as int, i2) {
                if exists|q2: int| 0 <= q2 < q && order[q2] as int == j {
                    let q2 = choose|q2: int| 0 <= q2 < q && order[q2] as int == j;
                    assert(o2[q2] == order[q2]);
                }
            }
        }
    }
}

proof fn lemma_new_entry_sources_first<P, I>(
    ws: Workspace<P, I>,
    order: Seq<usize>,
    k: usize,
    anc: Seq<ModuleId>,
)
    requires
        ws.wf(),
        k < ws.modules@.len(),
        ws.modules@.len() <= usize::MAX,
        is_chain(ws, seq![ws.modules@[k as int].id] + anc),
        forall|i2: int|
            0 <= i2 < ws.modules@[k as int].inputs@.len() ==> match #[trigger] spec_source(ws, k as int, i2) {
                Some(j) => j == k || order.contains(j as usize) || anc.contains(ws.modules@[j].id),
                None => true,
            },
    ensures
        sources_first(ws, order.push(k), order.len() as int),
{
    let o2 = order.push(k);
    let q = order.len() as int;
    let idk = ws.modules@[k as int].id;
    let anc2 = seq![idk] + anc;
    assert(o2[q] == k);
    assert forall|i2: int|
        0 <= i2 < ws.modules@[o2[q] as int].inputs@.len() implies #[trigger] source_first(
            ws,
            o2,
            q,
            i2,
        ) by {
        assert(spec_source(ws, o2[q] as int, i2) == spec_source(ws, k as int, i2));
        lemma_source_in_range(ws, k as int, i2);
        assert(0 <= i2 < ws.modules@[k as int].inputs@.len());
        if let Some(j) = spec_source(ws, k as int, i2) {
            if j != k {
                if order.contains(j as usize) {
                    let q2 = choose|q2: int| 0 <= q2 < order.len() && order[q2] == j as usize;
                    assert(o2[q2] == order[q2]);
                } else {
                    assert(anc.contains(ws.modules@[j].id));
                    let t = choose|t: int| 0 <= t < anc.len() && anc[t] == ws.modules@[j].id;
                    let path = anc2.subrange(0, t + 2);
                    assert(path[0] == idk);
                    assert(path.last() == anc[t]);
                    assert forall|t2: int| 0 <= t2 < path.len() - 1 implies feeds(
                        ws,
                        #[trigger] path[t2],
                        path[t2 + 1],
                    ) by {
                        assert(path[t2] == anc2[t2]);
                        assert(path[t2 + 1] == anc2[t2 + 1]);
                    }
                    assert(is_chain(ws, path));
                    assert(reaches(ws, idk, ws.modules@[j].id));
                }
            }
        }
    }
}

proof fn lemma_positions_len(n: nat)
    requires
        n <= usize::MAX,
    ensures
        Set::new(|x: usize| (x as int) < n).finite(),
        Set::new(|x: usize| (x as int) < n).len() == n,
    decreases n,
{
    if n == 0 {
        assert(Set::new(|x: usize| (x as int) < n) =~= Set::empty());
    } else {
        let m = (n - 1) as nat;
        lemma_positions_len(m);
        assert(Set::new(|x: usize| (x as int) < m).insert(m as usize) =~= Set::new(
            |x: usize| (x as int) < n,
        ));
    }
}

/// The positions of the modules in the order they run this tick: every
/// module exactly once, each after the modules feeding it unless that edge
/// closes a cycle. The walk starts from the terminal modules (those whose
/// outputs feed no input) in ascending id order, then takes any module left
/// over, which only a cycle without a terminal leaves.
#[verifier::rlimit(60)]
pub fn run_order_positions<P, I>(ws: &Workspace<P, I>) -> (r: Vec<usize>)
    requires
        ws.wf(),
    ensures
        r@.len() == ws.modules@.len(),
        r@.no_duplicates(),
        forall|t: int| 0 <= t < r@.len() ==> (#[trigger] r@[t]) < ws.modules@.len(),
        forall|x: usize| (x as int) < ws.modules@.len() ==> #[trigger] r@.contains(x),
        forall|q: int| 0 <= q < r@.len() ==> #[trigger] sources_first(*ws, r@, q),
        r@ == spec_run_order(*ws),
{
    let n = ws.modules.len();
    let mut terminal: Vec<bool> = Vec::new();
    let mut k: usize = 0;
    while k < n
        invariant
            n == ws.modules@.len(),
            k <= n,
            terminal@.len() == k,
            forall|x: int| 0 <= x < k ==> #[trigger] terminal@[x],
        decreases n - k,
    {
        terminal.push(true);
        k = k + 1;
    }
    let mut c: usize = 0;
    while c < ws.connections.len()
        invariant
            ws.wf(),
            n == ws.modules@.len(),
            terminal@.len() == n,
            c <= ws.connections@.len(),
            forall|x: int|
                0 <= x < n ==> (#[trigger] terminal@[x] <==> forall|c2: int|
                    0 <= c2 < c ==> (#[trigger] ws.connections@[c2]).1.0 != ws.modules@[x].id),
        decreases ws.connections@.len() - c,
    {
        let ghost t0 = terminal@;
        match ws.find_module(ws.connections[c].1.0) {
            Some(j) => {
                terminal.set(j, false);
                proof {
                    assert forall|x: int|
                        0 <= x < n implies (#[trigger] terminal@[x] <==> forall|c2: int|
                            0 <= c2 < c + 1 ==> (#[trigger] ws.connections@[c2]).1.0 != ws.modules@[x].id) by {
                        if x != j {
                            if x < j {
                                assert(ws.modules@[x].id.0 < ws.modules@[j as int].id.0);
                            } else {
                                assert(ws.modules@[j as int].id.0 < ws.modules@[x].id.0);
                            }
                            assert(terminal@[x] == t0[x]);
                        } else {
                            assert(ws.connections@[c as int].1.0 == ws.modules@[x].id);
                        }
                    }
                }
            },
            None => {
                proof {
                    assert forall|x: int|
                        0 <= x < n implies (#[trigger] terminal@[x] <==> forall|c2: int|
                            0 <= c2 < c + 1 ==> (#[trigger] ws.connections@[c2]).1.0 != ws.modules@[x].id) by {
                        if ws.connections@[c as int].1.0 == ws.modules@[x].id {
                            assert(ws.has_module(ws.modules@[x].id));
                        }
                    }
                }
            },
        }
        c = c + 1;
    }
    let mut seen: Vec<bool> = Vec::new();
    let mut k: usize = 0;
    while k < n
        invariant
            n == ws.modules@.len(),
            k <= n,
            seen@.len() == k,
            forall|x: int| 0 <= x < k ==> !seen@[x],
        decreases n - k,
    {
        seen.push(false);
        k = k + 1;
    }
    let mut order: Vec<usize> = Vec::new();
    let ghost start = (seen@, order@);
    proof {
        assert(seen@ =~= Seq::new(n as nat, |x: int| false));
        assert forall|x: int| 0 <= x < n implies #[trigger] terminal@[x] == is_terminal(*ws, x) by {}
    }
    let mut k: usize = 0;
    while k < n
        invariant
            ws.wf(),
            n == ws.modules@.len(),
            terminal@.len() == n,
            forall|x: int| 0 <= x < n ==> #[trigger] terminal@[x] == is_terminal(*ws, x),
            walk_from(*ws, true, 0, start.0, start.1, (n + 1) as nat) == walk_from(
                *ws,
                true,
                k as int,
                seen@,
                order@,
                (n + 1) as nat,
            ),
            k <= n,
            seen@.len() == n,
            order_ok(order@, seen@),
            forall|x: int| 0 <= x < n && seen@[x] ==> order@.contains(x as usize),
            forall|q: int| 0 <= q < order@.len() ==> #[trigger] sources_first(*ws, order@, q),
        decreases n - k,
    {
        let ghost seen1 = seen@;
        let ghost order1 = order@;
        if terminal[k] {
            proof {
                lemma_count_le_len(seen@);
                assert(walk_from(*ws, true, k as int, seen1, order1, (n + 1) as nat) == walk_from(
                    *ws,
                    true,
                    k + 1,
                    walk(*ws, k as int, seen1, order1, (n + 1) as nat).0,
                    walk(*ws, k as int, seen1, order1, (n + 1) as nat).1,
                    (n + 1) as nat,
                ));
            }
            proof {
            lemma_count_le_len(seen@);
            assert(walk_from(*ws, false, k as int, seen1, order1, (n + 1) as nat) == walk_from(
                *ws,
                false,
                k + 1,
                walk(*ws, k as int, seen1, order1, (n + 1) as nat).0,
                walk(*ws, k as int, seen1, order1, (n + 1) as nat).1,
                (n + 1) as nat,
            ));
        }
        visit(ws, k, &mut seen, &mut order, Ghost(Seq::empty()), Ghost((n + 1) as nat));
            proof {
                assert forall|x: int| 0 <= x < n && seen@[x] implies order@.contains(x as usize) by {
                    if seen1[x] {
                        let w = choose|w: int| 0 <= w < order1.len() && order1[w] == x as usize;
                        assert(order@.subrange(0, order1.len() as int)[w] == order1[w]);
                    }
                }
            }
        }
        proof {
            if !terminal@[k as int] {
                assert(walk_from(*ws, true, k as int, seen1, order1, (n + 1) as nat) == walk_from(
                    *ws,
                    true,
                    k + 1,
                    seen1,
                    order1,
                    (n + 1) as nat,
                ));
            }
        }
        k = k + 1;
    }
    let ghost mid = (seen@, order@);
    proof {
        assert(walk_from(*ws, true, n as int, seen@, order@, (n + 1) as nat) == mid);
    }
    let mut k: usize = 0;
    while k < n
        invariant
            walk_from(*ws, false, 0, mid.0, mid.1, (n + 1) as nat) == walk_from(
                *ws,
                false,
                k as int,
                seen@,
                order@,
                (n + 1) as nat,
            ),
            ws.wf(),
            n == ws.modules@.len(),
            k <= n,
            seen@.len() == n,
            order_ok(order@, seen@),
            forall|x: int| 0 <= x < n && seen@[x] ==> order@.contains(x as usize),
            forall|x: int| 0 <= x < k ==> #[trigger] seen@[x],
            forall|q: int| 0 <= q < order@.len() ==> #[trigger] sources_first(*ws, order@, q),
        decreases n - k,
    {
        let ghost seen1 = seen@;
        let ghost order1 = order@;
        proof {
            lemma_count_le_len(seen@);
            assert(walk_from(*ws, false, k as int, seen1, order1, (n + 1) as nat) == walk_from(
                *ws,
                false,
                k + 1,
                walk(*ws, k as int, seen1, order1, (n + 1) as nat).0,
                walk(*ws, k as int, seen1, order1, (n + 1) as nat).1,
                (n + 1) as nat,
            ));
        }
        visit(ws, k, &mut seen, &mut order, Ghost(Seq::empty()), Ghost((n + 1) as nat));
        proof {
            assert forall|x: int| 0 <= x < n && seen@[x] implies order@.contains(x as usize) by {
                if seen1[x] {
                    let w = choose|w: int| 0 <= w < order1.len() && order1[w] == x as usize;
                    assert(order@.subrange(0, order1.len() as int)[w] == order1[w]);
                }
            }
        }
        k = k + 1;
    }
    proof {
        let full = Set::new(|x: usize| (x as int) < n);
        lemma_positions_len(n as nat);
        assert(order@.to_set() =~= full) by {
            assert forall|x: usize| full.contains(x) implies order@.to_set().contains(x) by {
                assert(seen@[x as int]);
            }
        }
        assert forall|x: usize| (x as int) < n implies #[trigger] order@.contains(x) by {
            assert(seen@[x as int]);
        }
        order@.unique_seq_to_set();
        assert(walk_from(*ws, false, n as int, seen@, order@, (n + 1) as nat) == (seen@, order@));
    }
    order
}

/// What the buffer router hands one module in a tick.
#[derive(Clone, Debug, PartialEq)]
pub struct TickStep {
    pub module: ModuleId,
    /// For each input, the output whose buffer it reads this tick, or `None`
    /// where it reads the Disconnected sentinel.
    pub inputs: Vec<Option<OutputId>>,
}

/// Whether module `m` runs before step `s` of `plan`.
pub open spec fn runs_before(plan: Seq<TickStep>, s: int, m: ModuleId) -> bool {
    exists|t: int| 0 <= t < s && (#[trigger] plan[t]).module == m
}

/// What input `i` of the module at step `s` reads: the output connected to
/// it, if the module producing that output has already run this tick.
pub open spec fn routed_input<P, I>(ws: Workspace<P, I>, plan: Seq<TickStep>, s: int, i: int) -> Option<
    OutputId,
> {
    match ws.connection(InputId(plan[s].module, i as usize)) {
        Some(o) => if runs_before(plan, s, o.0) {
            Some(o)
        } else {
            None
        },
        None => None,
    }
}

/// Input `i` of the module at step `s` is fed by a module that ran earlier
/// in the tick, unless it is fed by the module itself or by a module that
/// the reading module reaches (the two lie on a cycle).
pub open spec fn dependency_ok<P, I>(ws: Workspace<P, I>, plan: Seq<TickStep>, s: int, i: int) -> bool {
    match ws.connection(InputId(plan[s].module, i as usize)) {
        Some(o) => o.0 == plan[s].module || runs_before(plan, s, o.0) || reaches(
            ws,
            plan[s].module,
            o.0,
        ),
        None => true,
    }
}

/// Every connected input of every step respects the dependency order.
pub open spec fn respects_dependencies<P, I>(ws: Workspace<P, I>, plan: Seq<TickStep>) -> bool {
    forall|s: int, i: int|
        0 <= s < plan.len() && 0 <= i < ws.module(plan[s].module)->0.inputs.len()
            ==> #[trigger] dependency_ok(ws, plan, s, i)
}

/// A plan runs every module of the workspace exactly once.
pub open spec fn runs_each_once<P, I>(ws: Workspace<P, I>, plan: Seq<TickStep>) -> bool {
    &&& plan.len() == ws.modules@.len()
    &&& forall|s: int| 0 <= s < plan.len() ==> ws.has_module(#[trigger] plan[s].module)
    &&& forall|s: int, t: int|
        0 <= s < t < plan.len() ==> (#[trigger] plan[s]).module != (#[trigger] plan[t]).module
    &&& forall|m: ModuleId| ws.has_module(m) ==> exists|s: int| 0 <= s < plan.len() && (#[trigger] plan[s]).module == m
}

/// Each input of each step reads what `routed_input` says.
pub open spec fn routes_inputs<P, I>(ws: Workspace<P, I>, plan: Seq<TickStep>) -> bool {
    forall|s: int|
        0 <= s < plan.len() ==> {
            &&& (#[trigger] plan[s]).inputs@.len() == ws.module(plan[s].module)->0.inputs.len()
            &&& forall|i: int|
                0 <= i < plan[s].inputs@.len() ==> #[trigger] plan[s].inputs@[i] == routed_input(
                    ws,
                    plan,
                    s,
                    i,
                )
        }
}

/// The steps of one tick: the modules in run order, each with the outputs
/// its inputs read. An input whose producer has not run yet in this tick
/// (the edge that closes a cycle) reads Disconnected.
#[verifier::rlimit(60)]
pub fn plan_tick<P, I>(ws: &Workspace<P, I>) -> (r: Vec<TickStep>)
    requires
        ws.wf(),
    ensures
        runs_each_once(*ws, r@),
        routes_inputs(*ws, r@),
        respects_dependencies(*ws, r@),
        r@.len() == spec_run_order(*ws).len(),
        forall|s: int|
            0 <= s < r@.len() ==> (#[trigger] r@[s]).module == ws.modules@[spec_run_order(*ws)[s] as int].id,
{
    let order = run_order_positions(ws);
    let n = ws.modules.len();
    let mut done: Vec<bool> = Vec::new();
    let mut k: usize = 0;
    while k < n
        invariant
            n == ws.modules@.len(),
            k <= n,
            done@.len() == k,
            forall|x: int| 0 <= x < k ==> !done@[x],
        decreases n - k,
    {
        done.push(false);
        k = k + 1;
    }
    let mut plan: Vec<TickStep> = Vec::new();
    let mut s: usize = 0;
    while s < n
        invariant
            ws.wf(),
            n == ws.modules@.len(),
            order@.len() == n,
            order@.no_duplicates(),
            forall|t: int| 0 <= t < n ==> (#[trigger] order@[t]) < n,
            forall|q: int| 0 <= q < n ==> #[trigger] sources_first(*ws, order@, q),
            s <= n,
            done@.len() == n,
            plan@.len() == s,
            forall|t: int| 0 <= t < s ==> (#[trigger] plan@[t]).module == ws.modules@[order@[t] as int].id,
            forall|j: int| 0 <= j < n ==> (#[trigger] done@[j] <==> exists|t: int| 0 <= t < s && order@[t] == j),
            forall|t: int|
                0 <= t < s ==> {
                    &&& (#[trigger] plan@[t]).inputs@.len() == ws.module(plan@[t].module)->0.inputs.len()
                    &&& forall|i: int|
                        0 <= i < plan@[t].inputs@.len() ==> #[trigger] plan@[t].inputs@[i] == routed_input(
                            *ws,
                            plan@,
                            t,
                            i,
                        )
                },
        decreases n - s,
    {
        let k = order[s];
        let id = ws.modules[k].id;
        proof {
            crate::workspace::lemma_module_at(*ws, k as int);
        }
        let n_inputs = ws.modules[k].inputs.len();
        let mut inputs: Vec<Option<OutputId>> = Vec::new();
        let mut i: usize = 0;
        while i < n_inputs
            invariant
                ws.wf(),
                n == ws.modules@.len(),
                k < n,
                id == ws.modules@[k as int].id,
                n_inputs == ws.modules@[k as int].inputs@.len(),
                done@.len() == n,
                plan@.len() == s,
                order@.len() == n,
                forall|t: int| 0 <= t < n ==> (#[trigger] order@[t]) < n,
                s < n,
                order@[s as int] == k,
                forall|t: int| 0 <= t < s ==> (#[trigger] plan@[t]).module == ws.modules@[order@[t] as int].id,
                forall|j: int| 0 <= j < n ==> (#[trigger] done@[j] <==> exists|t: int| 0 <= t < s && order@[t] == j),
                i <= n_inputs,
                inputs@.len() == i,
                forall|x: int|
                    0 <= x < i ==> #[trigger] inputs@[x] == match ws.connection(InputId(id, x as usize)) {
                        Some(o) => if runs_before(plan@, s as int, o.0) {
                            Some(o)
                        } else {
                            None
                        },
                        None => None,
                    },
            decreases n_inputs - i,
        {
            let routed = match ws.get_connection(InputId(id, i)) {
                None => None,
                Some(o) => match source_index(ws, k, i) {
                    None => None,
                    Some(j) => {
                        proof {
                            if runs_before(plan@, s as int, o.0) {
                                let t = choose|t: int| 0 <= t < s && (#[trigger] plan@[t]).module == o.0;
                                let ot = order@[t] as int;
                                assert(ws.modules@[ot].id == ws.modules@[j as int].id);
                                if ot < j {
                                    assert(ws.modules@[ot].id.0 < ws.modules@[j as int].id.0);
                                } else if j < ot {
                                    assert(ws.modules@[j as int].id.0 < ws.modules@[ot].id.0);
                                }
                                assert(done@[j as int]);
                            }
                            if done@[j as int] {
                                let t = choose|t: int| 0 <= t < s && order@[t] == j;
                                assert(plan@[t].module == o.0);
                            }
                        }
                        if done[j] {
                            Some(o)
                        } else {
                            None
                        }
                    },
                },
            };
            inputs.push(routed);
            i = i + 1;
        }
        let ghost plan0 = plan@;
        plan.push(TickStep { module: id, inputs });
        done.set(k, true);
        proof {
            assert forall|t: int| 0 <= t <= s implies #[trigger] plan@[t] == if t < s { plan0[t] } else { plan@[s as int] } by {}
            assert forall|t: int, x: ModuleId| 0 <= t <= s implies (#[trigger] runs_before(plan@, t, x)) == runs_before(plan0, t, x) by {
                if runs_before(plan@, t, x) {
                    let w = choose|w: int| 0 <= w < t && (#[trigger] plan@[w]).module == x;
                    assert(plan0[w] == plan@[w]);
                }
                if runs_before(plan0, t, x) {
                    let w = choose|w: int| 0 <= w < t && (#[trigger] plan0[w]).module == x;
                    assert(plan0[w] == plan@[w]);
                }
            }
            assert forall|j: int| 0 <= j < n implies (#[trigger] done@[j] <==> exists|t: int| 0 <= t < s + 1 && order@[t] == j) by {
                if j == k {
                    assert(order@[s as int] == j);
                }
                if exists|t: int| 0 <= t < s + 1 && order@[t] == j {
                    let t = choose|t: int| 0 <= t < s + 1 && order@[t] == j;
                    if t == s {
                        assert(j == k);
                    }
                }
            }
        }
        s = s + 1;
    }
    proof {
        assert forall|s1: int| 0 <= s1 < n implies ws.has_module(#[trigger] plan@[s1].module) by {
            crate::workspace::lemma_module_at(*ws, order@[s1] as int);
        }
        assert forall|s1: int, t: int|
            0 <= s1 < t < n implies (#[trigger] plan@[s1]).module != (#[trigger] plan@[t]).module by {
            let a = order@[s1] as int;
            let b = order@[t] as int;
            assert(a != b);
            if a < b {
                assert(ws.modules@[a].id.0 < ws.modules@[b].id.0);
            } else {
                assert(ws.modules@[b].id.0 < ws.modules@[a].id.0);
            }
        }
        assert forall|s1: int, i: int|
            0 <= s1 < plan@.len() && 0 <= i < ws.module(plan@[s1].module)->0.inputs.len()
                implies #[trigger] dependency_ok(*ws, plan@, s1, i) by {
            let k = order@[s1] as int;
            crate::workspace::lemma_module_at(*ws, k);
            assert(sources_first(*ws, order@, s1));
            assert(source_first(*ws, order@, s1, i));
            lemma_source_in_range(*ws, k, i);
            if let Some(o) = ws.connection(InputId(plan@[s1].module, i as usize)) {
                let j = spec_source(*ws, k, i)->0;
                if j == k {
                } else if exists|q2: int| 0 <= q2 < s1 && order@[q2] as int == j {
                    let q2 = choose|q2: int| 0 <= q2 < s1 && order@[q2] as int == j;
                    assert(plan@[q2].module == o.0);
                    assert(runs_before(plan@, s1, o.0));
                }
            }
        }
        assert forall|m: ModuleId| ws.has_module(m) implies exists|s1: int| 0 <= s1 < n && (#[trigger] plan@[s1]).module == m by {
            let j = choose|j: int| 0 <= j < n && ws.modules@[j].id == m;
            assert(order@.contains(j as usize));
            let t = choose|t: int| 0 <= t < n && order@[t] == j as usize;
            assert(plan@[t].module == m);
        }
    }
    plan
}


/// The run order depends on the graph alone: two workspaces with the same
/// modules and connections, whatever their id sequences, run their modules
/// in the same order.
pub proof fn lemma_run_order_of_graph<P, I>(a: Workspace<P, I>, b: Workspace<P, I>)
    requires
        a.modules@ == b.modules@,
        a.connections@ == b.connections@,
    ensures
        spec_run_order(a) == spec_run_order(b),
{
    let n = a.modules@.len();
    let fuel = (n + 1) as nat;
    lemma_walk_from_same(a, b, true, 0, Seq::new(n, |x: int| false), Seq::empty(), fuel);
    let t = walk_from(a, true, 0, Seq::new(n, |x: int| false), Seq::empty(), fuel);
    lemma_walk_from_same(a, b, false, 0, t.0, t.1, fuel);
}

proof fn lemma_source_same<P, I>(a: Workspace<P, I>, b: Workspace<P, I>, k: int, i: int)
    requires
        a.modules@ == b.modules@,
        a.connections@ == b.connections@,
    ensures
        spec_source(a, k, i) == spec_source(b, k, i),
{
    let input = InputId(a.modules@[k].id, i as usize);
    assert(a.has_connection(input) == b.has_connection(input));
    assert(a.connection(input) == b.connection(input));
}

proof fn lemma_walk_same<P, I>(
    a: Workspace<P, I>,
    b: Workspace<P, I>,
    k: int,
    seen: Seq<bool>,
    order: Seq<usize>,
    fuel: nat,
)
    requires
        a.modules@ == b.modules@,
        a.connections@ == b.connections@,
    ensures
        walk(a, k, seen, order, fuel) == walk(b, k, seen, order, fuel),
    decreases fuel, 0int,
{
    if fuel > 0 && !seen[k] {
        lemma_walk_inputs_same(a, b, k, 0, seen.update(k, true), order, (fuel - 1) as nat);
    }
}

proof fn lemma_walk_inputs_same<P, I>(
    a: Workspace<P, I>,
    b: Workspace<P, I>,
    k: int,
    i: int,
    seen: Seq<bool>,
    order: Seq<usize>,
    fuel: nat,
)
    requires
        a.modules@ == b.modules@,
        a.connections@ == b.connections@,
    ensures
        walk_inputs(a, k, i, seen, order, fuel) == walk_inputs(b, k, i, seen, order, fuel),
    decreases fuel, a.modules@[k].inputs@.len() - i,
{
    if 0 <= i < a.modules@[k].inputs@.len() {
        lemma_source_same(a, b, k, i);
        let r = match spec_source(a, k, i) {
            Some(j) => {
                lemma_walk_same(a, b, j, seen, order, fuel);
                walk(a, j, seen, order, fuel)
            },
            None => (seen, order),
        };
        lemma_walk_inputs_same(a, b, k, i + 1, r.0, r.1, fuel);
    }
}

proof fn lemma_walk_from_same<P, I>(
    a: Workspace<P, I>,
    b: Workspace<P, I>,
    terminals_only: bool,
    k: int,
    seen: Seq<bool>,
    order: Seq<usize>,
    fuel: nat,
)
    requires
        a.modules@ == b.modules@,
        a.connections@ == b.connections@,
    ensures
        walk_from(a, terminals_only, k, seen, order, fuel) == walk_from(
            b,
            terminals_only,
            k,
            seen,
            order,
            fuel,
        ),
    decreases a.modules@.len() - k,
{
    if 0 <= k < a.modules@.len() {
        assert(is_terminal(a, k) == is_terminal(b, k));
        lemma_walk_same(a, b, k, seen, order, fuel);
        let r = if !terminals_only || is_terminal(a, k) {
            walk(a, k, seen, order, fuel)
        } else {
            (seen, order)
        };
        lemma_walk_from_same(a, b, terminals_only, k + 1, r.0, r.1, fuel);
    }
}

} // verus!
