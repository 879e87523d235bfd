//! The authoritative graph state: modules with their terminals, window
//! geometry and latest indication, and the typed connections between them.
use vstd::prelude::*;
use crate::ids::{ModuleId, InputId, OutputId, TerminalId, LineType};

verus! {

/// A window position on the client's canvas.
#[derive(Clone, Copy, Debug, PartialEq, Eq, Structural, Hash)]
pub struct Coords {
    pub x: i32,
    pub y: i32,
}

/// Window placement of a module; carried through without engine semantics.
#[derive(Clone, Copy, Debug, PartialEq, Eq, Structural, Hash)]
pub struct WindowGeometry {
    pub position: Coords,
    pub z_index: usize,
}

/// Why a connection was refused.
#[derive(Clone, Copy, Debug, PartialEq, Eq, Structural)]
pub enum ConnectError {
    NoInput,
    NoOutput,
    TypeMismatch,
}

/// One module instance as the workspace holds it.
pub struct ModuleEntry<P, I> {
    pub id: ModuleId,
    pub params: P,
    pub geometry: WindowGeometry,
    pub indication: I,
    pub inputs: Vec<LineType>,
    pub outputs: Vec<LineType>,
}

/// The mathematical value of a module entry.
pub struct ModuleView<P, I> {
    pub params: P,
    pub geometry: WindowGeometry,
    pub indication: I,
    pub inputs: Seq<LineType>,
    pub outputs: Seq<LineType>,
}

impl<P, I> ModuleEntry<P, I> {
    pub open spec fn view(&self) -> ModuleView<P, I> {
        ModuleView {
            params: self.params,
            geometry: self.geometry,
            indication: self.indication,
            inputs: self.inputs@,
            outputs: self.outputs@,
        }
    }
}

/// The graph state. Modules are kept in ascending id order; each input has
/// at most one entry in `connections`.
pub struct Workspace<P, I> {
    /// The next module id to hand out.
    pub module_seq: usize,
    pub modules: Vec<ModuleEntry<P, I>>,
    /// Each connection as (input, the output feeding it).
    pub connections: Vec<(InputId, OutputId)>,
}

/// The line type of a terminal of a module, if the module has that terminal.
pub open spec fn terminal_of<P, I>(m: Option<ModuleView<P, I>>, t: TerminalId) -> Option<LineType> {
    match m {
        None => None,
        Some(m) => match t {
            TerminalId::Input(i) => if i.1 < m.inputs.len() {
                Some(m.inputs[i.1 as int])
            } else {
                None
            },
            TerminalId::Output(o) => if o.1 < m.outputs.len() {
                Some(m.outputs[o.1 as int])
            } else {
                None
            },
        },
    }
}

impl<P, I> Workspace<P, I> {
    pub open spec fn has_module(self, id: ModuleId) -> bool {
        exists|k: int| 0 <= k < self.modules@.len() && self.modules@[k].id == id
    }

    /// The module with this id, if any.
    pub open spec fn module(self, id: ModuleId) -> Option<ModuleView<P, I>> {
        if self.has_module(id) {
            Some(
                self.modules@[choose|k: int|
                    0 <= k < self.modules@.len() && self.modules@[k].id == id].view(),
            )
        } else {
            None
        }
    }

    pub open spec fn spec_terminal_type(self, t: TerminalId) -> Option<LineType> {
        terminal_of(self.module(t.module_of()), t)
    }

    pub open spec fn has_connection(self, i: InputId) -> bool {
        exists|k: int| 0 <= k < self.connections@.len() && self.connections@[k].0 == i
    }

    /// The output feeding input `i`, if it is connected.
    pub open spec fn connection(self, i: InputId) -> Option<OutputId> {
        if self.has_connection(i) {
            Some(
                self.connections@[choose|k: int|
                    0 <= k < self.connections@.len() && self.connections@[k].0 == i].1,
            )
        } else {
            None
        }
    }

    /// Position in `connections` of the connection feeding input `i`.
    pub open spec fn connection_index(self, i: InputId) -> int {
        choose|k: int| 0 <= k < self.connections@.len() && self.connections@[k].0 == i
    }

    /// The connection list after connecting `o` to `i`: the entry of `i`
    /// replaced in place, or a new entry at the end.
    pub open spec fn connected_list(self, i: InputId, o: OutputId) -> Seq<(InputId, OutputId)> {
        if self.has_connection(i) {
            self.connections@.update(self.connection_index(i), (i, o))
        } else {
            self.connections@.push((i, o))
        }
    }

    /// The connection list after disconnecting `i`.
    pub open spec fn disconnected_list(self, i: InputId) -> Seq<(InputId, OutputId)> {
        if self.has_connection(i) {
            self.connections@.remove(self.connection_index(i))
        } else {
            self.connections@
        }
    }

    /// Both endpoints of every connection exist and carry the same line type.
    pub open spec fn connections_valid(self) -> bool {
        forall|k: int|
            0 <= k < self.connections@.len() ==> {
                let c = #[trigger] self.connections@[k];
                &&& self.spec_terminal_type(TerminalId::Input(c.0)) is Some
                &&& self.spec_terminal_type(TerminalId::Input(c.0))
                    == self.spec_terminal_type(TerminalId::Output(c.1))
            }
    }

    /// No input appears in two connections.
    pub open spec fn inputs_unique(self) -> bool {
        forall|a: int, b: int|
            0 <= a < b < self.connections@.len() ==> (#[trigger] self.connections@[a]).0
                != (#[trigger] self.connections@[b]).0
    }

    /// Module ids ascend strictly.
    pub open spec fn ids_ordered(self) -> bool {
        forall|a: int, b: int|
            0 <= a < b < self.modules@.len() ==> (#[trigger] self.modules@[a]).id.0
                < (#[trigger] self.modules@[b]).id.0
    }

    /// Every id from the next one to hand out up to the largest is in use.
    pub open spec fn ids_exhausted(self) -> bool {
        forall|x: usize| self.module_seq <= x < usize::MAX ==> #[trigger] self.has_module(ModuleId(x))
    }

    /// `id` is the first id at or after the sequence that is not in use.
    pub open spec fn is_next_id(self, id: ModuleId) -> bool {
        &&& self.module_seq <= id.0 < usize::MAX
        &&& !self.has_module(id)
        &&& forall|x: usize| self.module_seq <= x < id.0 ==> #[trigger] self.has_module(ModuleId(x))
    }

    /// The id `add_module` hands out next, when the ids are not exhausted.
    pub open spec fn next_id(self) -> ModuleId {
        choose|id: ModuleId| self.is_next_id(id)
    }

    pub open spec fn wf(self) -> bool {
        &&& self.ids_ordered()
        &&& self.inputs_unique()
        &&& self.connections_valid()
    }

    /// Modules and terminals are those of `other`; connections may differ.
    pub open spec fn same_modules(self, other: Self) -> bool {
        &&& self.module_seq == other.module_seq
        &&& self.modules@ == other.modules@
    }

    pub open spec fn same_connections(self, other: Self) -> bool {
        forall|i: InputId| #[trigger] self.connection(i) == other.connection(i)
    }
}

/// In a well-formed workspace the module at position `k` is what `module`
/// returns for its id.
pub proof fn lemma_module_at<P, I>(ws: Workspace<P, I>, k: int)
    requires
        ws.ids_ordered(),
        0 <= k < ws.modules@.len(),
    ensures
        ws.has_module(ws.modules@[k].id),
        ws.module(ws.modules@[k].id) == Some(ws.modules@[k].view()),
{
    let id = ws.modules@[k].id;
    assert(ws.has_module(id));
    let j = choose|j: int| 0 <= j < ws.modules@.len() && ws.modules@[j].id == id;
    if j < k {
        assert(ws.modules@[j].id.0 < ws.modules@[k].id.0);
    } else if k < j {
        assert(ws.modules@[k].id.0 < ws.modules@[j].id.0);
    }
}

/// In a well-formed workspace the connection at position `k` is what
/// `connection` returns for its input.
pub proof fn lemma_connection_at<P, I>(ws: Workspace<P, I>, k: int)
    requires
        ws.inputs_unique(),
        0 <= k < ws.connections@.len(),
    ensures
        ws.has_connection(ws.connections@[k].0),
        ws.connection(ws.connections@[k].0) == Some(ws.connections@[k].1),
{
    let i = ws.connections@[k].0;
    assert(ws.has_connection(i));
    let j = choose|j: int| 0 <= j < ws.connections@.len() && ws.connections@[j].0 == i;
    if j < k {
        assert(ws.connections@[j].0 != ws.connections@[k].0);
    } else if k < j {
        assert(ws.connections@[k].0 != ws.connections@[j].0);
    }
}

/// Taking out the connection at position `k` disconnects its input and
/// leaves every other input as it was.
pub proof fn lemma_remove_connection<P, I>(pre: Workspace<P, I>, post: Workspace<P, I>, k: int)
    requires
        pre.inputs_unique(),
        0 <= k < pre.connections@.len(),
        post.connections@ == pre.connections@.remove(k),
    ensures
        post.inputs_unique(),
        post.connection(pre.connections@[k].0) is None,
        forall|j: InputId|
            j != pre.connections@[k].0 ==> #[trigger] post.connection(j) == pre.connection(j),
{
    let gone = pre.connections@[k].0;
    assert forall|a: int, b: int|
        0 <= a < b < post.connections@.len() implies (#[trigger] post.connections@[a]).0
            != (#[trigger] post.connections@[b]).0 by {
        let a2 = if a < k { a } else { a + 1 };
        let b2 = if b < k { b } else { b + 1 };
        assert(post.connections@[a] == pre.connections@[a2]);
        assert(post.connections@[b] == pre.connections@[b2]);
    }
    if post.has_connection(gone) {
        let w = choose|w: int| 0 <= w < post.connections@.len() && post.connections@[w].0 == gone;
        let w2 = if w < k { w } else { w + 1 };
        assert(post.connections@[w] == pre.connections@[w2]);
    }
    assert forall|j: InputId| j != gone implies #[trigger] post.connection(j) == pre.connection(j) by {
        if pre.has_connection(j) {
            let w = choose|w: int| 0 <= w < pre.connections@.len() && pre.connections@[w].0 == j;
            lemma_connection_at(pre, w);
            let w2 = if w < k { w } else { w - 1 };
            assert(post.connections@[w2] == pre.connections@[w]);
            lemma_connection_at(post, w2);
        }
        if post.has_connection(j) {
            let w = choose|w: int| 0 <= w < post.connections@.len() && post.connections@[w].0 == j;
            let w2 = if w < k { w } else { w + 1 };
            assert(post.connections@[w] == pre.connections@[w2]);
        }
    }
}

/// Taking out the module at position `k` removes its id and leaves every
/// other module as it was.
pub proof fn lemma_remove_module<P, I>(pre: Workspace<P, I>, post: Workspace<P, I>, k: int)
    requires
        pre.ids_ordered(),
        0 <= k < pre.modules@.len(),
        post.modules@ == pre.modules@.remove(k),
        post.module_seq == pre.module_seq,
    ensures
        post.ids_ordered(),
        !post.has_module(pre.modules@[k].id),
        forall|x: ModuleId| x != pre.modules@[k].id ==> #[trigger] post.module(x) == pre.module(x),
{
    let gone = pre.modules@[k].id;
    assert forall|a: int, b: int|
        0 <= a < b < post.modules@.len() implies (#[trigger] post.modules@[a]).id.0
            < (#[trigger] post.modules@[b]).id.0 by {
        let a2 = if a < k { a } else { a + 1 };
        let b2 = if b < k { b } else { b + 1 };
        assert(post.modules@[a] == pre.modules@[a2]);
        assert(post.modules@[b] == pre.modules@[b2]);
    }
    if post.has_module(gone) {
        let w = choose|w: int| 0 <= w < post.modules@.len() && post.modules@[w].id == gone;
        let w2 = if w < k { w } else { w + 1 };
        assert(post.modules@[w] == pre.modules@[w2]);
    }
    assert forall|x: ModuleId| x != gone implies #[trigger] post.module(x) == pre.module(x) by {
        if pre.has_module(x) {
            let w = choose|w: int| 0 <= w < pre.modules@.len() && pre.modules@[w].id == x;
            lemma_module_at(pre, w);
            let w2 = if w < k { w } else { w - 1 };
            assert(post.modules@[w2] == pre.modules@[w]);
            lemma_module_at(post, w2);
        }
        if post.has_module(x) {
            let w = choose|w: int| 0 <= w < post.modules@.len() && post.modules@[w].id == x;
            let w2 = if w < k { w } else { w + 1 };
            assert(post.modules@[w] == pre.modules@[w2]);
        }
    }
}

/// Two workspaces with the same modules agree on every terminal's type.
pub proof fn lemma_same_types<P, I>(a: Workspace<P, I>, b: Workspace<P, I>)
    requires
        a.modules@ == b.modules@,
    ensures
        forall|x: ModuleId| #[trigger] a.module(x) == b.module(x),
        forall|t: TerminalId| #[trigger] a.spec_terminal_type(t) == b.spec_terminal_type(t),
{
    assert forall|x: ModuleId| #[trigger] a.module(x) == b.module(x) by {
        assert(a.has_module(x) == b.has_module(x));
    }
}

/// Replacing the module at position `k` by an entry with the same id and
/// terminals changes `module` at that id only, and no terminal's type.
pub proof fn lemma_update_module<P, I>(pre: Workspace<P, I>, post: Workspace<P, I>, k: int)
    requires
        pre.ids_ordered(),
        0 <= k < pre.modules@.len(),
        post.module_seq == pre.module_seq,
        post.modules@.len() == pre.modules@.len(),
        post.modules@[k].id == pre.modules@[k].id,
        post.modules@[k].inputs@ == pre.modules@[k].inputs@,
        post.modules@[k].outputs@ == pre.modules@[k].outputs@,
        forall|j: int| 0 <= j < pre.modules@.len() && j != k ==> post.modules@[j] == pre.modules@[j],
    ensures
        post.ids_ordered(),
        post.module(pre.modules@[k].id) == Some(post.modules@[k].view()),
        forall|x: ModuleId|
            x != pre.modules@[k].id ==> #[trigger] post.module(x) == pre.module(x),
        forall|t: TerminalId| #[trigger] post.spec_terminal_type(t) == pre.spec_terminal_type(t),
{
    let id = pre.modules@[k].id;
    assert forall|a: int, b: int|
        0 <= a < b < post.modules@.len() implies (#[trigger] post.modules@[a]).id.0
            < (#[trigger] post.modules@[b]).id.0 by {
        assert(pre.modules@[a].id == post.modules@[a].id);
        assert(pre.modules@[b].id == post.modules@[b].id);
    }
    lemma_module_at(post, k);
    lemma_module_at(pre, k);
    assert forall|x: ModuleId| x != id implies #[trigger] post.module(x) == pre.module(x) by {
        if pre.has_module(x) {
            let w = choose|w: int| 0 <= w < pre.modules@.len() && pre.modules@[w].id == x;
            lemma_module_at(pre, w);
            lemma_module_at(post, w);
        }
        if post.has_module(x) {
            let w = choose|w: int| 0 <= w < post.modules@.len() && post.modules@[w].id == x;
            assert(pre.modules@[w].id == x);
        }
    }
    assert forall|t: TerminalId| #[trigger] post.spec_terminal_type(t) == pre.spec_terminal_type(
        t,
    ) by {
        if t.module_of() != id {
            assert(post.module(t.module_of()) == pre.module(t.module_of()));
        }
    }
}

/// Whether a connection has an endpoint on module `id`.
pub open spec fn touches(i: InputId, o: OutputId, id: ModuleId) -> bool {
    i.0 == id || o.0 == id
}

/// The inputs of the connections in `c` that touch module `id`, in order.
pub open spec fn touching_inputs(c: Seq<(InputId, OutputId)>, id: ModuleId) -> Seq<InputId>
    decreases c.len(),
{
    if c.len() == 0 {
        Seq::empty()
    } else if touches(c.last().0, c.last().1, id) {
        touching_inputs(c.drop_last(), id).push(c.last().0)
    } else {
        touching_inputs(c.drop_last(), id)
    }
}

/// The connections in `c` that do not touch module `id`, in order.
pub open spec fn untouched(c: Seq<(InputId, OutputId)>, id: ModuleId) -> Seq<(InputId, OutputId)>
    decreases c.len(),
{
    if c.len() == 0 {
        Seq::empty()
    } else if touches(c.last().0, c.last().1, id) {
        untouched(c.drop_last(), id)
    } else {
        untouched(c.drop_last(), id).push(c.last())
    }
}

impl<P, I> Workspace<P, I> {
    /// An empty workspace.
    pub fn new() -> (r: Self)
        ensures
            r.wf(),
            r.module_seq == 1,
            r.modules@.len() == 0,
            r.connections@.len() == 0,
            forall|id: ModuleId| !r.has_module(id),
            forall|i: InputId| #[trigger] r.connection(i) is None,
    {
        Workspace { module_seq: 1, modules: Vec::new(), connections: Vec::new() }
    }

    /// Position of the module with this id.
    pub fn find_module(&self, id: ModuleId) -> (r: Option<usize>)
        requires
            self.wf(),
        ensures
            r is None <==> !self.has_module(id),
            r matches Some(k) ==> k < self.modules@.len() && self.modules@[k as int].id == id,
    {
        let mut k: usize = 0;
        while k < self.modules.len()
            invariant
                k <= self.modules@.len(),
                forall|j: int| 0 <= j < k ==> self.modules@[j].id != id,
            decreases self.modules@.len() - k,
        {
            if self.modules[k].id == id {
                return Some(k);
            }
            k = k + 1;
        }
        None
    }

    /// Position of the connection feeding this input.
    pub fn find_connection(&self, input: InputId) -> (r: Option<usize>)
        requires
            self.wf(),
        ensures
            r is None <==> !self.has_connection(input),
            r matches Some(k) ==> k < self.connections@.len() && self.connections@[k as int].0
                == input,
    {
        let mut k: usize = 0;
        while k < self.connections.len()
            invariant
                k <= self.connections@.len(),
                forall|j: int| 0 <= j < k ==> self.connections@[j].0 != input,
            decreases self.connections@.len() - k,
        {
            if self.connections[k].0 == input {
                return Some(k);
            }
            k = k + 1;
        }
        None
    }

    /// The line type of a terminal, or `None` where its module or its index
    /// does not exist.
    pub fn terminal_type(&self, terminal: TerminalId) -> (r: Option<LineType>)
        requires
            self.wf(),
        ensures
            r == self.spec_terminal_type(terminal),
    {
        match self.find_module(terminal.module_id()) {
            None => None,
            Some(k) => {
                proof {
                    lemma_module_at(*self, k as int);
                }
                let m = &self.modules[k];
                match terminal {
                    TerminalId::Input(i) => if i.1 < m.inputs.len() {
                        Some(m.inputs[i.1])
                    } else {
                        None
                    },
                    TerminalId::Output(o) => if o.1 < m.outputs.len() {
                        Some(m.outputs[o.1])
                    } else {
                        None
                    },
                }
            },
        }
    }

    /// The output feeding `input`, if any.
    pub fn get_connection(&self, input: InputId) -> (r: Option<OutputId>)
        requires
            self.wf(),
        ensures
            r == self.connection(input),
    {
        match self.find_connection(input) {
            None => None,
            Some(k) => {
                proof {
                    lemma_connection_at(*self, k as int);
                }
                Some(self.connections[k].1)
            },
        }
    }
    /// Connects `output_id` to `input_id` when both terminals exist and carry
    /// the same line type, and returns the output that fed the input before.
    /// On an error the workspace is left as it was.
    #[verifier::rlimit(60)]
    pub fn connect(&mut self, input_id: InputId, output_id: OutputId) -> (r: Result<
        Option<OutputId>,
        ConnectError,
    >)
        requires
            old(self).wf(),
        ensures
            final(self).wf(),
            final(self).same_modules(*old(self)),
            ({
                let in_ty = old(self).spec_terminal_type(TerminalId::Input(input_id));
                let out_ty = old(self).spec_terminal_type(TerminalId::Output(output_id));
                &&& in_ty is None ==> r == Err::<Option<OutputId>, ConnectError>(
                    ConnectError::NoInput,
                )
                &&& in_ty is Some && out_ty is None ==> r == Err::<Option<OutputId>, ConnectError>(
                    ConnectError::NoOutput,
                )
                &&& in_ty is Some && out_ty is Some && in_ty != out_ty ==> r == Err::<
                    Option<OutputId>,
                    ConnectError,
                >(ConnectError::TypeMismatch)
                &&& in_ty is Some && in_ty == out_ty ==> r == Ok::<Option<OutputId>, ConnectError>(
                    old(self).connection(input_id),
                )
            }),
            r is Err ==> *final(self) == *old(self),
            r is Ok ==> final(self).connection(input_id) == Some(output_id),
            r is Ok ==> final(self).connections@ == old(self).connected_list(input_id, output_id),
            r is Ok ==> forall|j: InputId|
                j != input_id ==> #[trigger] final(self).connection(j) == old(self).connection(j),
    {
        let input_type = match self.terminal_type(TerminalId::Input(input_id)) {
            Some(ty) => ty,
            None => return Err(ConnectError::NoInput),
        };
        let output_type = match self.terminal_type(TerminalId::Output(output_id)) {
            Some(ty) => ty,
            None => return Err(ConnectError::NoOutput),
        };
        if input_type != output_type {
            return Err(ConnectError::TypeMismatch);
        }
        let ghost pre = *self;
        let prior = self.get_connection(input_id);
        match self.find_connection(input_id) {
            Some(k) => {
                proof {
                    let c = pre.connection_index(input_id);
                    assert(pre.has_connection(input_id));
                    if c < k {
                        assert(pre.connections@[c].0 != pre.connections@[k as int].0);
                    } else if k < c {
                        assert(pre.connections@[k as int].0 != pre.connections@[c].0);
                    }
                }
                self.connections.set(k, (input_id, output_id));
                proof {
                    assert(self.connections@ == pre.connections@.update(k as int, (input_id, output_id)));
                    assert(self.spec_terminal_type(TerminalId::Input(input_id)) == pre.spec_terminal_type(TerminalId::Input(input_id)));
                    assert forall|j: int| 0 <= j < self.connections@.len() implies {
                        let c = #[trigger] self.connections@[j];
                        &&& self.spec_terminal_type(TerminalId::Input(c.0)) is Some
                        &&& self.spec_terminal_type(TerminalId::Input(c.0))
                            == self.spec_terminal_type(TerminalId::Output(c.1))
                    } by {
                        if j != k {
                            assert(pre.connections@[j] == self.connections@[j]);
                        }
                    }
                    assert(self.wf());
                    lemma_connection_at(*self, k as int);
                    assert forall|j: InputId| j != input_id implies #[trigger] self.connection(j)
                        == pre.connection(j) by {
                        if pre.has_connection(j) {
                            let w = choose|w: int|
                                0 <= w < pre.connections@.len() && pre.connections@[w].0 == j;
                            lemma_connection_at(pre, w);
                            lemma_connection_at(*self, w);
                        }
                        if self.has_connection(j) {
                            let w = choose|w: int|
                                0 <= w < self.connections@.len() && self.connections@[w].0 == j;
                            assert(pre.connections@[w] == self.connections@[w]);
                        }
                    }
                }
            },
            None => {
                self.connections.push((input_id, output_id));
                proof {
                    let n = pre.connections@.len() as int;
                    assert(self.connections@ == pre.connections@.push((input_id, output_id)));
                    assert forall|j: int| 0 <= j < self.connections@.len() implies {
                        let c = #[trigger] self.connections@[j];
                        &&& self.spec_terminal_type(TerminalId::Input(c.0)) is Some
                        &&& self.spec_terminal_type(TerminalId::Input(c.0))
                            == self.spec_terminal_type(TerminalId::Output(c.1))
                    } by {
                        if j != n {
                            assert(pre.connections@[j] == self.connections@[j]);
                        }
                    }
                    assert forall|a: int, b: int|
                        0 <= a < b < self.connections@.len() implies (#[trigger] self.connections@[a]).0
                            != (#[trigger] self.connections@[b]).0 by {
                        if b == n {
                            assert(pre.connections@[a] == self.connections@[a]);
                        } else {
                            assert(pre.connections@[a] == self.connections@[a]);
                            assert(pre.connections@[b] == self.connections@[b]);
                        }
                    }
                    assert(self.wf());
                    lemma_connection_at(*self, n);
                    assert forall|j: InputId| j != input_id implies #[trigger] self.connection(j)
                        == pre.connection(j) by {
                        if pre.has_connection(j) {
                            let w = choose|w: int|
                                0 <= w < pre.connections@.len() && pre.connections@[w].0 == j;
                            lemma_connection_at(pre, w);
                            lemma_connection_at(*self, w);
                        }
                        if self.has_connection(j) {
                            let w = choose|w: int|
                                0 <= w < self.connections@.len() && self.connections@[w].0 == j;
                            assert(pre.connections@[w] == self.connections@[w]);
                        }
                    }
                }
            },
        }
        Ok(prior)
    }
    /// Removes the connection feeding `input_id` and returns the output it
    /// came from.
    pub fn disconnect(&mut self, input_id: InputId) -> (r: Option<OutputId>)
        requires
            old(self).wf(),
        ensures
            final(self).wf(),
            final(self).same_modules(*old(self)),
            r == old(self).connection(input_id),
            r is None ==> *final(self) == *old(self),
            final(self).connections@ == old(self).disconnected_list(input_id),
            final(self).connection(input_id) is None,
            forall|j: InputId|
                j != input_id ==> #[trigger] final(self).connection(j) == old(self).connection(j),
    {
        let ghost pre = *self;
        match self.find_connection(input_id) {
            None => None,
            Some(k) => {
                proof {
                    lemma_connection_at(pre, k as int);
                    let c = pre.connection_index(input_id);
                    if c < k {
                        assert(pre.connections@[c].0 != pre.connections@[k as int].0);
                    } else if k < c {
                        assert(pre.connections@[k as int].0 != pre.connections@[c].0);
                    }
                }
                let (_, out) = self.connections.remove(k);
                proof {
                    lemma_remove_connection(pre, *self, k as int);
                    lemma_same_types(pre, *self);
                    assert forall|j: int| 0 <= j < self.connections@.len() implies {
                        let c = #[trigger] self.connections@[j];
                        &&& self.spec_terminal_type(TerminalId::Input(c.0)) is Some
                        &&& self.spec_terminal_type(TerminalId::Input(c.0))
                            == self.spec_terminal_type(TerminalId::Output(c.1))
                    } by {
                        let j2 = if j < k { j } else { j + 1 };
                        assert(self.connections@[j] == pre.connections@[j2]);
                    }
                }
                Some(out)
            },
        }
    }

    /// Adds a module under the first id at or after the sequence that is
    /// not in use, moves the sequence past it, and returns that id; `None`,
    /// with nothing changed, once the ids are used up.
    pub fn add_module(
        &mut self,
        params: P,
        geometry: WindowGeometry,
        indication: I,
        inputs: Vec<LineType>,
        outputs: Vec<LineType>,
    ) -> (r: Option<ModuleId>)
        requires
            old(self).wf(),
        ensures
            final(self).wf(),
            r is None <==> old(self).ids_exhausted(),
            r is None ==> *final(self) == *old(self),
            !old(self).ids_exhausted() ==> old(self).is_next_id(old(self).next_id()) && r == Some(
                old(self).next_id(),
            ),
            r matches Some(id) ==> {
                &&& final(self).module_seq == id.0 + 1
                &&& final(self).module(id) == Some(
                    ModuleView { params, geometry, indication, inputs: inputs@, outputs: outputs@ },
                )
                &&& forall|x: ModuleId| x != id ==> #[trigger] final(self).module(x) == old(self).module(x)
                &&& final(self).connections@ == old(self).connections@
            },
    {
        let mut c: usize = self.module_seq;
        while c < usize::MAX && self.find_module(ModuleId(c)).is_some()
            invariant
                self.wf(),
                self.module_seq <= c,
                forall|x: usize| self.module_seq <= x < c ==> #[trigger] self.has_module(ModuleId(x)),
            decreases usize::MAX - c,
        {
            c = c + 1;
        }
        if c == usize::MAX {
            return None;
        }
        let ghost pre = *self;
        let id = ModuleId(c);
        proof {
            assert(pre.is_next_id(id));
            assert(!pre.ids_exhausted());
            let other = pre.next_id();
            assert(pre.is_next_id(other));
            if other.0 < id.0 {
                assert(pre.has_module(ModuleId(other.0)));
            } else if id.0 < other.0 {
                assert(pre.has_module(ModuleId(id.0)));
            }
        }
        let taken = self.restore_module(id, params, geometry, indication, inputs, outputs);
        let ghost mid = *self;
        self.module_seq = c + 1;
        proof {
            assert(taken);
            lemma_same_types(*self, mid);
        }
        Some(id)
    }

    /// Removes module `id`: first every connection with an endpoint on it,
    /// then the module itself. Returns the inputs whose connections were
    /// removed, and whether the module was there.
    #[verifier::rlimit(60)]
    pub fn remove_module(&mut self, id: ModuleId) -> (r: (Vec<InputId>, bool))
        requires
            old(self).wf(),
        ensures
            final(self).wf(),
            final(self).module_seq == old(self).module_seq,
            r.1 == old(self).has_module(id),
            !final(self).has_module(id),
            forall|x: ModuleId| x != id ==> #[trigger] final(self).module(x) == old(self).module(x),
            forall|j: InputId|
                #[trigger] final(self).connection(j) == (if old(self).connection(j) matches Some(o)
                    && touches(j, o, id) {
                    None
                } else {
                    old(self).connection(j)
                }),
            r.0@.no_duplicates(),
            forall|j: InputId|
                #[trigger] r.0@.contains(j) <==> (old(self).connection(j) matches Some(o) && touches(
                    j,
                    o,
                    id,
                )),
            r.0@ == touching_inputs(old(self).connections@, id),
            final(self).connections@ == untouched(old(self).connections@, id),
    {
        let ghost pre = *self;
        let mut removed: Vec<InputId> = Vec::new();
        let mut k: usize = 0;
        let ghost mut g: int = 0;
        while k < self.connections.len()
            invariant
                0 <= g <= pre.connections@.len(),
                self.connections@ == untouched(pre.connections@.subrange(0, g), id)
                    + pre.connections@.subrange(g, pre.connections@.len() as int),
                k == untouched(pre.connections@.subrange(0, g), id).len(),
                removed@ == touching_inputs(pre.connections@.subrange(0, g), id),
                self.wf(),
                self.same_modules(pre),
                k <= self.connections@.len(),
                forall|w: int|
                    0 <= w < k ==> !touches(
                        (#[trigger] self.connections@[w]).0,
                        self.connections@[w].1,
                        id,
                    ),
                forall|j: InputId|
                    (#[trigger] self.connection(j)) is Some ==> self.connection(j) == pre.connection(j),
                forall|j: InputId|
                    (pre.connection(j) matches Some(o) && !touches(j, o, id)) ==> #[trigger] self.connection(j)
                        == pre.connection(j),
                removed@.no_duplicates(),
                forall|j: InputId|
                    #[trigger] removed@.contains(j) <==> (pre.connection(j) matches Some(o) && touches(
                        j,
                        o,
                        id,
                    ) && self.connection(j) is None),
            decreases self.connections@.len() - k,
        {
            let c = self.connections[k];
            proof {
                let s0 = pre.connections@.subrange(0, g);
                let s1 = pre.connections@.subrange(0, g + 1);
                assert(s1.drop_last() =~= s0);
                assert(self.connections@[k as int] == pre.connections@[g]);
                assert(s1.last() == pre.connections@[g]);
            }
            if c.0.0 == id || c.1.0 == id {
                let ghost before = *self;
                proof {
                    lemma_connection_at(before, k as int);
                }
                self.connections.remove(k);
                proof {
                    lemma_remove_connection(before, *self, k as int);
                    lemma_same_types(before, *self);
                    assert forall|j: int| 0 <= j < self.connections@.len() implies {
                        let c = #[trigger] self.connections@[j];
                        &&& self.spec_terminal_type(TerminalId::Input(c.0)) is Some
                        &&& self.spec_terminal_type(TerminalId::Input(c.0))
                            == self.spec_terminal_type(TerminalId::Output(c.1))
                    } by {
                        let j2 = if j < k { j } else { j + 1 };
                        assert(self.connections@[j] == before.connections@[j2]);
                    }
                    assert forall|w: int| 0 <= w < k implies !touches(
                        (#[trigger] self.connections@[w]).0,
                        self.connections@[w].1,
                        id,
                    ) by {
                        assert(self.connections@[w] == before.connections@[w]);
                    }
                    assert(!removed@.contains(c.0));
                }
                let ghost prev = removed@;
                removed.push(c.0);
                proof {
                    assert(self.connections@ =~= untouched(pre.connections@.subrange(0, g + 1), id)
                        + pre.connections@.subrange(g + 1, pre.connections@.len() as int));
                    g = g + 1;
                    assert(removed@ == prev.push(c.0));
                    assert forall|j: InputId|
                        #[trigger] removed@.contains(j) <==> (pre.connection(j) matches Some(o)
                            && touches(j, o, id) && self.connection(j) is None) by {
                        if j != c.0 {
                            if prev.contains(j) {
                                let w = choose|w: int| 0 <= w < prev.len() && prev[w] == j;
                                assert(removed@[w] == j);
                            }
                            if removed@.contains(j) {
                                let w = choose|w: int| 0 <= w < removed@.len() && removed@[w] == j;
                                assert(prev[w] == j);
                            }
                        } else {
                            assert(removed@[prev.len() as int] == j);
                        }
                    }
                }
            } else {
                k = k + 1;
                proof {
                    assert(self.connections@ =~= untouched(pre.connections@.subrange(0, g + 1), id)
                        + pre.connections@.subrange(g + 1, pre.connections@.len() as int));
                    g = g + 1;
                }
            }
        }
        proof {
            assert(g == pre.connections@.len()) by {
                if g < pre.connections@.len() {
                    assert(self.connections@.len() > k);
                }
            }
            assert(pre.connections@.subrange(0, g) =~= pre.connections@);
            assert(self.connections@ =~= untouched(pre.connections@, id));
            assert forall|j: InputId| #[trigger] self.connection(j) == (if pre.connection(j) matches Some(o)
                && touches(j, o, id) {
                None
            } else {
                pre.connection(j)
            }) by {
                if self.has_connection(j) {
                    let w = choose|w: int|
                        0 <= w < self.connections@.len() && self.connections@[w].0 == j;
                    lemma_connection_at(*self, w);
                }
            }
        }
        let present = match self.find_module(id) {
            None => false,
            Some(m) => {
                let ghost before = *self;
                proof {
                    lemma_module_at(before, m as int);
                }
                self.modules.remove(m);
                proof {
                    lemma_remove_module(before, *self, m as int);
                    assert forall|j: int| 0 <= j < self.connections@.len() implies {
                        let c = #[trigger] self.connections@[j];
                        &&& self.spec_terminal_type(TerminalId::Input(c.0)) is Some
                        &&& self.spec_terminal_type(TerminalId::Input(c.0))
                            == self.spec_terminal_type(TerminalId::Output(c.1))
                    } by {
                        let c = self.connections@[j];
                        assert(before.connections@[j] == c);
                        assert(!touches(c.0, c.1, id));
                    }
                }
                true
            },
        };
        (removed, present)
    }
    /// Replaces the parameters of module `id`; `false`, with nothing
    /// changed, when there is no such module.
    pub fn set_params(&mut self, id: ModuleId, params: P) -> (r: bool)
        requires
            old(self).wf(),
        ensures
            final(self).wf(),
            r == old(self).has_module(id),
            !r ==> *final(self) == *old(self),
            r ==> final(self).module(id) == Some(
                ModuleView { params, ..old(self).module(id)->0 },
            ),
            final(self).module_seq == old(self).module_seq,
            final(self).connections@ == old(self).connections@,
            forall|x: ModuleId| x != id ==> #[trigger] final(self).module(x) == old(self).module(x),
    {
        match self.find_module(id) {
            None => false,
            Some(k) => {
                let ghost pre = *self;
                proof {
                    lemma_module_at(pre, k as int);
                }
                self.modules[k].params = params;
                proof {
                    lemma_update_module(pre, *self, k as int);
                    self.lemma_valid_from(pre);
                }
                true
            },
        }
    }

    /// Replaces the window geometry of module `id`; `false`, with nothing
    /// changed, when there is no such module.
    pub fn set_geometry(&mut self, id: ModuleId, geometry: WindowGeometry) -> (r: bool)
        requires
            old(self).wf(),
        ensures
            final(self).wf(),
            r == old(self).has_module(id),
            !r ==> *final(self) == *old(self),
            r ==> final(self).module(id) == Some(
                ModuleView { geometry, ..old(self).module(id)->0 },
            ),
            final(self).module_seq == old(self).module_seq,
            final(self).connections@ == old(self).connections@,
            forall|x: ModuleId| x != id ==> #[trigger] final(self).module(x) == old(self).module(x),
    {
        match self.find_module(id) {
            None => false,
            Some(k) => {
                let ghost pre = *self;
                proof {
                    lemma_module_at(pre, k as int);
                }
                self.modules[k].geometry = geometry;
                proof {
                    lemma_update_module(pre, *self, k as int);
                    self.lemma_valid_from(pre);
                }
                true
            },
        }
    }

    /// Replaces the latest indication of module `id`; `false`, with nothing
    /// changed, when there is no such module.
    pub fn set_indication(&mut self, id: ModuleId, indication: I) -> (r: bool)
        requires
            old(self).wf(),
        ensures
            final(self).wf(),
            r == old(self).has_module(id),
            !r ==> *final(self) == *old(self),
            r ==> final(self).module(id) == Some(
                ModuleView { indication, ..old(self).module(id)->0 },
            ),
            final(self).module_seq == old(self).module_seq,
            final(self).connections@ == old(self).connections@,
            forall|x: ModuleId| x != id ==> #[trigger] final(self).module(x) == old(self).module(x),
    {
        match self.find_module(id) {
            None => false,
            Some(k) => {
                let ghost pre = *self;
                proof {
                    lemma_module_at(pre, k as int);
                }
                self.modules[k].indication = indication;
                proof {
                    lemma_update_module(pre, *self, k as int);
                    self.lemma_valid_from(pre);
                }
                true
            },
        }
    }

    /// Connections stay valid when no terminal's type changed.
    proof fn lemma_valid_from(self, pre: Self)
        requires
            pre.wf(),
            self.ids_ordered(),
            self.connections@ == pre.connections@,
            forall|t: TerminalId| #[trigger] self.spec_terminal_type(t) == pre.spec_terminal_type(t),
        ensures
            self.wf(),
    {
        assert forall|j: int| 0 <= j < self.connections@.len() implies {
            let c = #[trigger] self.connections@[j];
            &&& self.spec_terminal_type(TerminalId::Input(c.0)) is Some
            &&& self.spec_terminal_type(TerminalId::Input(c.0))
                == self.spec_terminal_type(TerminalId::Output(c.1))
        } by {
            let c = pre.connections@[j];
            assert(self.spec_terminal_type(TerminalId::Input(c.0)) == pre.spec_terminal_type(TerminalId::Input(c.0)));
            assert(self.spec_terminal_type(TerminalId::Output(c.1)) == pre.spec_terminal_type(TerminalId::Output(c.1)));
        }
    }
    /// Puts a module under a given id at its place in id order, as when
    /// loading a saved workspace. It is taken when the id is not present
    /// yet; otherwise nothing changes.
    #[verifier::rlimit(60)]
    pub fn restore_module(
        &mut self,
        id: ModuleId,
        params: P,
        geometry: WindowGeometry,
        indication: I,
        inputs: Vec<LineType>,
        outputs: Vec<LineType>,
    ) -> (r: bool)
        requires
            old(self).wf(),
        ensures
            final(self).wf(),
            r == !old(self).has_module(id),
            !r ==> *final(self) == *old(self),
            r ==> final(self).module(id) == Some(
                ModuleView { params, geometry, indication, inputs: inputs@, outputs: outputs@ },
            ),
            forall|x: ModuleId| x != id ==> #[trigger] final(self).module(x) == old(self).module(x),
            final(self).module_seq == old(self).module_seq,
            final(self).connections@ == old(self).connections@,
    {
        let mut pos: usize = 0;
        while pos < self.modules.len() && self.modules[pos].id.0 < id.0
            invariant
                pos <= self.modules@.len(),
                forall|j: int| 0 <= j < pos ==> self.modules@[j].id.0 < id.0,
            decreases self.modules@.len() - pos,
        {
            pos = pos + 1;
        }
        if pos < self.modules.len() && self.modules[pos].id.0 == id.0 {
            proof {
                assert(self.modules@[pos as int].id == id);
            }
            return false;
        }
        let ghost pre = *self;
        proof {
            assert forall|j: int| pos <= j < pre.modules@.len() implies id.0 < (#[trigger] pre.modules@[j]).id.0 by {
                if j > pos {
                    assert(pre.modules@[pos as int].id.0 < pre.modules@[j].id.0);
                }
            }
            if pre.has_module(id) {
                let w = choose|w: int| 0 <= w < pre.modules@.len() && pre.modules@[w].id == id;
            }
        }
        let entry = ModuleEntry { id, params, geometry, indication, inputs, outputs };
        self.modules.insert(pos, entry);
        proof {
            let n = pre.modules@.len() as int;
            let p = pos as int;
            assert(self.modules@ == pre.modules@.insert(p, entry));
            assert forall|a: int| 0 <= a < self.modules@.len() implies #[trigger] self.modules@[a] == if a < p {
                pre.modules@[a]
            } else if a == p {
                entry
            } else {
                pre.modules@[a - 1]
            } by {}
            assert forall|a: int, b: int|
                0 <= a < b < self.modules@.len() implies (#[trigger] self.modules@[a]).id.0
                    < (#[trigger] self.modules@[b]).id.0 by {
                if a < p && b > p {
                    assert(pre.modules@[a].id.0 < pre.modules@[b - 1].id.0 || a == b - 1);
                }
            }
            assert(self.ids_ordered());
            lemma_module_at(*self, p);
            assert forall|x: ModuleId| x != id implies #[trigger] self.module(x) == pre.module(x) by {
                if pre.has_module(x) {
                    let w = choose|w: int| 0 <= w < pre.modules@.len() && pre.modules@[w].id == x;
                    lemma_module_at(pre, w);
                    let w2 = if w < p { w } else { w + 1 };
                    lemma_module_at(*self, w2);
                }
                if self.has_module(x) {
                    let w = choose|w: int| 0 <= w < self.modules@.len() && self.modules@[w].id == x;
                    if w < p {
                        assert(pre.modules@[w].id == x);
                    } else if w > p {
                        assert(pre.modules@[w - 1].id == x);
                    }
                }
            }
            assert forall|j: int| 0 <= j < self.connections@.len() implies {
                let c = #[trigger] self.connections@[j];
                &&& self.spec_terminal_type(TerminalId::Input(c.0)) is Some
                &&& self.spec_terminal_type(TerminalId::Input(c.0))
                    == self.spec_terminal_type(TerminalId::Output(c.1))
            } by {
                let c = pre.connections@[j];
                assert(pre.spec_terminal_type(TerminalId::Input(c.0)) is Some);
                if c.0.0 == id {
                    assert(pre.module(id) is None);
                }
                if c.1.0 == id {
                    assert(pre.module(id) is None);
                }
            }
        }
        true
    }
}

} // verus!
