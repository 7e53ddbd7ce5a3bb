//! The graph of components: typed ports, validated connections and the
//! cached evaluation order.
use vstd::prelude::*;

use crate::topology::{
    acyclic, has_edge, is_lowest_ready, is_ready, is_topological, kahn_order,
    lemma_stuck_is_cyclic, sorted_order,
};
use crate::types::{ConnView, Connection, ConnectionError, IOType, Node, NodeView};

verus! {

/// The declared ports of one component, names as character sequences.
pub open spec fn ports_view(ports: Seq<(String, IOType)>) -> Seq<(Seq<char>, IOType)> {
    ports.map_values(|p: (String, IOType)| (p.0@, p.1))
}

/// Holds of the connections that touch neither end of component `id`.
pub open spec fn clear_of(id: usize) -> spec_fn(ConnView) -> bool {
    |c: ConnView| c.from.id != id && c.to.id != id
}

/// One component's part of an evaluation pass: which buffer each declared
/// input reads (`None`: the shared silent buffer) and which outputs it fills.
pub struct Step {
    pub id: usize,
    pub inputs: Vec<(String, Option<Node>)>,
    pub outputs: Vec<String>,
}

/// The mathematical value of a [`Step`].
pub struct StepView {
    pub id: usize,
    pub inputs: Seq<(Seq<char>, Option<NodeView>)>,
    pub outputs: Seq<Seq<char>>,
}

/// The view of an optional endpoint.
pub open spec fn node_opt_view(n: Option<Node>) -> Option<NodeView> {
    match n {
        Some(x) => Some(x@),
        None => None,
    }
}

impl View for Step {
    type V = StepView;

    open spec fn view(&self) -> StepView {
        StepView {
            id: self.id,
            inputs: self.inputs@.map_values(|p: (String, Option<Node>)| (p.0@, node_opt_view(p.1))),
            outputs: self.outputs@.map_values(|n: String| n@),
        }
    }
}

/// The mathematical value of one component.
pub struct ComponentView {
    pub id: usize,
    pub inputs: Seq<(Seq<char>, IOType)>,
    pub outputs: Seq<(Seq<char>, IOType)>,
}

/// The mathematical value of a [`Graph`].
pub struct GraphView {
    pub buffer_size: usize,
    pub components: Seq<ComponentView>,
    pub connections: Seq<ConnView>,
    pub order: Seq<usize>,
    pub next_id: usize,
}

impl GraphView {
    /// The ids of all components.
    pub open spec fn ids(self) -> Set<usize> {
        self.components.map_values(|c: ComponentView| c.id).to_set()
    }

    /// A component with this id is in the graph.
    pub open spec fn has(self, id: usize) -> bool {
        exists|i: int| 0 <= i < self.components.len() && #[trigger] self.components[i].id == id
    }

    /// Component `id` declares an input port of this name and type.
    pub open spec fn declares_input(self, id: usize, name: Seq<char>, io: IOType) -> bool {
        exists|i: int|
            0 <= i < self.components.len() && #[trigger] self.components[i].id == id
                && self.components[i].inputs.contains((name, io))
    }

    /// Component `id` declares an output port of this name and type.
    pub open spec fn declares_output(self, id: usize, name: Seq<char>, io: IOType) -> bool {
        exists|i: int|
            0 <= i < self.components.len() && #[trigger] self.components[i].id == id
                && self.components[i].outputs.contains((name, io))
    }

    /// Some connection already feeds input `name` of component `id`.
    pub open spec fn input_occupied(self, id: usize, name: Seq<char>) -> bool {
        exists|k: int|
            0 <= k < self.connections.len() && #[trigger] self.connections[k].to.id == id
                && self.connections[k].to.name == name
    }

    /// No two components share an id.
    pub open spec fn ids_distinct(self) -> bool {
        forall|i: int, j: int|
            0 <= i < j < self.components.len() ==> #[trigger] self.components[i].id
                != #[trigger] self.components[j].id
    }

    /// `c` joins two different components, from a declared output to a
    /// declared input, with the declared types.
    pub open spec fn joins_declared_ports(self, c: ConnView) -> bool {
        &&& c.from.id != c.to.id
        &&& self.declares_input(c.to.id, c.to.name, c.to.io)
        &&& self.declares_output(c.from.id, c.from.name, c.from.io)
    }

    /// What adding connection `c` returns: the checks in their order, then
    /// whether the connections would still admit an evaluation order.
    pub open spec fn connect_outcome(self, c: ConnView) -> Result<(), ConnectionError> {
        if c.from.id == c.to.id {
            Err(ConnectionError::LoopingConnection)
        } else if !self.has(c.to.id) {
            Err(ConnectionError::ControllerNotInGraph)
        } else if !self.declares_input(c.to.id, c.to.name, c.to.io) {
            Err(ConnectionError::InputNotInComponent)
        } else if self.input_occupied(c.to.id, c.to.name) {
            Err(ConnectionError::InputOccupied)
        } else if !self.has(c.from.id) {
            Err(ConnectionError::ControllerNotInGraph)
        } else if !self.declares_output(c.from.id, c.from.name, c.from.io) {
            Err(ConnectionError::OutputNotInComponent)
        } else if !acyclic(self.ids(), self.connections.push(c)) {
            Err(ConnectionError::LoopingConnection)
        } else {
            Ok(())
        }
    }

    /// The graph after connection `c` was added.
    pub open spec fn connected(self, c: ConnView) -> GraphView {
        GraphView {
            connections: self.connections.push(c),
            order: sorted_order(self.ids(), self.connections.push(c)),
            ..self
        }
    }

    /// The graph after a component with these ports was added under the next
    /// free id.
    pub open spec fn with_component(
        self,
        inputs: Seq<(Seq<char>, IOType)>,
        outputs: Seq<(Seq<char>, IOType)>,
    ) -> GraphView {
        let ids = self.ids().insert(self.next_id);
        GraphView {
            components: self.components.push(
                ComponentView { id: self.next_id, inputs: inputs, outputs: outputs },
            ),
            order: sorted_order(ids, self.connections),
            next_id: (self.next_id + 1) as usize,
            ..self
        }
    }

    /// What removing connection `c` returns: whether it was there, or an
    /// error where an endpoint names no component.
    pub open spec fn disconnect_outcome(self, c: ConnView) -> Result<bool, ConnectionError> {
        if !self.has(c.from.id) || !self.has(c.to.id) {
            Err(ConnectionError::ControllerNotInGraph)
        } else {
            Ok(self.connections.contains(c))
        }
    }

    /// The graph after connection `c`, where present, was removed.
    pub open spec fn disconnected(self, c: ConnView) -> GraphView {
        let conns = if self.connections.contains(c) {
            self.connections.remove(self.connections.index_of(c))
        } else {
            self.connections
        };
        GraphView { connections: conns, order: sorted_order(self.ids(), conns), ..self }
    }

    /// Index of the component with this id.
    pub open spec fn component_index(self, id: usize) -> int {
        choose|i: int| 0 <= i < self.components.len() && self.components[i].id == id
    }

    /// The graph after component `id` and every connection touching it were
    /// removed.
    pub open spec fn without_component(self, id: usize) -> GraphView {
        let comps = self.components.remove(self.component_index(id));
        let conns = self.connections.filter(clear_of(id));
        GraphView {
            components: comps,
            connections: conns,
            order: sorted_order(comps.map_values(|c: ComponentView| c.id).to_set(), conns),
            ..self
        }
    }

    /// The output port that feeds input `name` of component `id`, if any.
    pub open spec fn feeder(self, id: usize, name: Seq<char>) -> Option<NodeView> {
        if self.input_occupied(id, name) {
            Some(
                self.connections[choose|k: int|
                    0 <= k < self.connections.len() && #[trigger] self.connections[k].to.id == id
                        && self.connections[k].to.name == name].from,
            )
        } else {
            None
        }
    }

    /// The step of an evaluation pass for component `id`.
    pub open spec fn step(self, id: usize) -> StepView {
        let c = self.components[self.component_index(id)];
        StepView {
            id: id,
            inputs: c.inputs.map_values(|p: (Seq<char>, IOType)| (p.0, self.feeder(id, p.0))),
            outputs: c.outputs.map_values(|p: (Seq<char>, IOType)| p.0),
        }
    }

    /// One evaluation pass: a step per component, in the evaluation order.
    pub open spec fn plan(self) -> Seq<StepView> {
        self.order.map_values(|id: usize| self.step(id))
    }

    /// The invariants that every operation keeps.
    pub open spec fn wf(self) -> bool {
        &&& self.ids_distinct()
        &&& forall|i: int|
            0 <= i < self.components.len() ==> #[trigger] self.components[i].id < self.next_id
        &&& forall|k: int|
            0 <= k < self.connections.len() ==> self.joins_declared_ports(#[trigger] self.connections[k])
        &&& forall|k: int, l: int|
            0 <= k < l < self.connections.len() ==> !(#[trigger] self.connections[k].to.id
                == #[trigger] self.connections[l].to.id && self.connections[k].to.name
                == self.connections[l].to.name)
        &&& kahn_order(self.ids(), self.connections) == Some(self.order)
        &&& is_topological(self.order, self.ids(), self.connections)
    }
}

struct Component {
    id: usize,
    inputs: Vec<(String, IOType)>,
    outputs: Vec<(String, IOType)>,
}

impl Component {
    closed spec fn view(&self) -> ComponentView {
        ComponentView { id: self.id, inputs: ports_view(self.inputs@), outputs: ports_view(self.outputs@) }
    }
}

/// Components with typed ports, the connections between them, and the order
/// in which one evaluation pass visits them.
pub struct Graph {
    buffer_size: usize,
    components: Vec<Component>,
    connections: Vec<Connection>,
    evaluation_order: Vec<usize>,
    next_free_id: usize,
}

impl View for Graph {
    type V = GraphView;

    closed spec fn view(&self) -> GraphView {
        GraphView {
            buffer_size: self.buffer_size,
            components: self.components@.map_values(|c: Component| c.view()),
            connections: self.connections@.map_values(|c: Connection| c@),
            order: self.evaluation_order@,
            next_id: self.next_free_id,
        }
    }
}

/// Whether `ports` declares a port of this name and type.
fn port_declared(ports: &Vec<(String, IOType)>, name: &String, io: IOType) -> (r: bool)
    ensures
        r == ports_view(ports@).contains((name@, io)),
{
    let ghost pv = ports_view(ports@);
    let mut i: usize = 0;
    while i < ports.len()
        invariant
            i <= ports.len(),
            pv == ports_view(ports@),
            forall|q: int| 0 <= q < i ==> pv[q] != (name@, io),
        decreases ports.len() - i,
    {
        if ports[i].1 == io && ports[i].0 == *name {
            proof {
                assert(pv[i as int] == (name@, io));
            }
            return true;
        }
        i += 1;
    }
    false
}

/// Whether `v` holds `x`.
fn holds_id(v: &Vec<usize>, x: usize) -> (r: bool)
    ensures
        r == v@.contains(x),
{
    let mut i: usize = 0;
    while i < v.len()
        invariant
            i <= v.len(),
            forall|q: int| 0 <= q < i ==> v@[q] != x,
        decreases v.len() - i,
    {
        if v[i] == x {
            return true;
        }
        i += 1;
    }
    false
}

impl Graph {
    /// An empty graph whose passes work on buffers of `buffer_size` samples.
    pub fn new(buffer_size: usize) -> (r: Graph)
        ensures
            r@.wf(),
            r@.buffer_size == buffer_size,
            r@.components.len() == 0,
            r@.connections.len() == 0,
            r@.order.len() == 0,
            r@.next_id == 0,
    {
        let r = Graph {
            buffer_size,
            components: Vec::new(),
            connections: Vec::new(),
            evaluation_order: Vec::new(),
            next_free_id: 0,
        };
        proof {
            assert(r@.components =~= Seq::<ComponentView>::empty());
            assert(r@.ids() =~= Set::<usize>::empty());
            assert(r@.order.to_set() =~= Set::<usize>::empty());
        }
        r
    }

    /// Number of samples in each buffer of a pass.
    pub fn buffer_size(&self) -> (r: usize)
        ensures
            r == self@.buffer_size,
    {
        self.buffer_size
    }

    /// Whether some connection already feeds input `name` of component `id`.
    fn input_occupied(&self, id: usize, name: &String) -> (r: bool)
        ensures
            r == self@.input_occupied(id, name@),
    {
        let ghost conns = self@.connections;
        let mut k: usize = 0;
        while k < self.connections.len()
            invariant
                k <= self.connections.len(),
                conns == self@.connections,
                forall|q: int| 0 <= q < k ==> !(#[trigger] conns[q].to.id == id && conns[q].to.name == name@),
            decreases self.connections.len() - k,
        {
            if self.connections[k].to.id == id && self.connections[k].to.name == *name {
                proof {
                    assert(conns[k as int].to.id == id);
                }
                return true;
            }
            k += 1;
        }
        false
    }

    /// Index of connection `c`.
    fn position_of(&self, c: &Connection) -> (r: Option<usize>)
        ensures
            match r {
                Some(k) => k < self@.connections.len() && self@.connections[k as int] == c@,
                None => !self@.connections.contains(c@),
            },
    {
        let mut k: usize = 0;
        while k < self.connections.len()
            invariant
                k <= self.connections.len(),
                forall|q: int| 0 <= q < k ==> self@.connections[q] != c@,
            decreases self.connections.len() - k,
        {
            if self.connections[k].same(c) {
                return Some(k);
            }
            k += 1;
        }
        None
    }

    /// Index of the component with this id.
    fn find_component(&self, id: usize) -> (r: Option<usize>)
        ensures
            match r {
                Some(i) => i < self@.components.len() && self@.components[i as int].id == id,
                None => !self@.has(id),
            },
    {
        let mut i: usize = 0;
        while i < self.components.len()
            invariant
                i <= self.components.len(),
                forall|q: int| 0 <= q < i ==> self@.components[q].id != id,
            decreases self.components.len() - i,
        {
            if self.components[i].id == id {
                return Some(i);
            }
            i += 1;
        }
        None
    }

    /// Whether some connection from a component in `remaining` feeds `n`.
    fn is_ready(&self, remaining: &Vec<usize>, n: usize) -> (r: bool)
        requires
            remaining@.contains(n),
        ensures
            r == is_ready(remaining@.to_set(), self@.connections, n),
    {
        let ghost rem = remaining@.to_set();
        let ghost conns = self@.connections;
        let mut k: usize = 0;
        while k < self.connections.len()
            invariant
                k <= self.connections.len(),
                conns == self@.connections,
                rem == remaining@.to_set(),
                forall|q: int|
                    0 <= q < k ==> !(#[trigger] conns[q].to.id == n && rem.contains(conns[q].from.id)),
            decreases self.connections.len() - k,
        {
            let c = &self.connections[k];
            if c.to.id == n && holds_id(remaining, c.from.id) {
                proof {
                    assert(conns[k as int].from.id == c.from.id);
                    assert(has_edge(conns, c.from.id, n));
                    assert(rem.contains(c.from.id));
                }
                return false;
            }
            k += 1;
        }
        proof {
            assert forall|m: usize| #[trigger] rem.contains(m) implies !has_edge(conns, m, n) by {
                if has_edge(conns, m, n) {
                    let q = choose|q: int| 0 <= q < conns.len() && #[trigger] conns[q].from.id == m && conns[q].to.id == n;
                }
            }
            assert(rem.contains(n));
        }
        true
    }

    /// Position in `remaining` of the ready component with the lowest id.
    fn lowest_ready(&self, remaining: &Vec<usize>) -> (r: Option<usize>)
        ensures
            match r {
                Some(p) => p < remaining.len() && is_lowest_ready(remaining@.to_set(), self@.connections, remaining@[p as int]),
                None => forall|n: usize| !is_ready(remaining@.to_set(), self@.connections, n),
            },
    {
        let ghost rem = remaining@.to_set();
        let ghost conns = self@.connections;
        let mut best: Option<usize> = None;
        let mut p: usize = 0;
        while p < remaining.len()
            invariant
                p <= remaining.len(),
                rem == remaining@.to_set(),
                conns == self@.connections,
                match best {
                    Some(b) => b < p && is_ready(rem, conns, remaining@[b as int])
                        && forall|q: int| 0 <= q < p && is_ready(rem, conns, #[trigger] remaining@[q]) ==> remaining@[b as int] <= remaining@[q],
                    None => forall|q: int| 0 <= q < p ==> !is_ready(rem, conns, #[trigger] remaining@[q]),
                },
            decreases remaining.len() - p,
        {
            let n = remaining[p];
            proof {
                assert(remaining@.contains(n));
            }
            if self.is_ready(remaining, n) {
                match best {
                    Some(b) => {
                        if n < remaining[b] {
                            best = Some(p);
                        }
                    },
                    None => {
                        best = Some(p);
                    },
                }
            }
            p += 1;
        }
        proof {
            match best {
                Some(b) => {
                    assert forall|m: usize| #[trigger] is_ready(rem, conns, m) implies remaining@[b as int] <= m by {
                        let q = choose|q: int| 0 <= q < remaining@.len() && remaining@[q] == m;
                    }
                },
                None => {
                    assert forall|m: usize| !is_ready(rem, conns, m) by {
                        if is_ready(rem, conns, m) {
                            let q = choose|q: int| 0 <= q < remaining@.len() && remaining@[q] == m;
                        }
                    }
                },
            }
        }
        best
    }

    /// Every connection, each once.
    pub fn connections(&self) -> (r: Vec<Connection>)
        ensures
            r@.map_values(|c: Connection| c@) == self@.connections,
    {
        let mut r: Vec<Connection> = Vec::new();
        let mut k: usize = 0;
        while k < self.connections.len()
            invariant
                k <= self.connections.len(),
                r@.map_values(|c: Connection| c@) == self@.connections.take(k as int),
            decreases self.connections.len() - k,
        {
            let ghost before = r@;
            r.push(self.connections[k].duplicate());
            proof {
                assert(r@.map_values(|c: Connection| c@) =~= before.map_values(|c: Connection| c@).push(self@.connections[k as int]));
                assert(self@.connections.take(k + 1) =~= self@.connections.take(k as int).push(self@.connections[k as int]));
            }
            k += 1;
        }
        proof {
            assert(self@.connections.take(k as int) =~= self@.connections);
        }
        r
    }

    /// The ids of all components in the order an evaluation pass visits them.
    pub fn evaluation_order(&self) -> (r: Vec<usize>)
        ensures
            r@ == self@.order,
    {
        let mut r: Vec<usize> = Vec::new();
        let mut k: usize = 0;
        while k < self.evaluation_order.len()
            invariant
                k <= self.evaluation_order.len(),
                r@ == self@.order.take(k as int),
            decreases self.evaluation_order.len() - k,
        {
            r.push(self.evaluation_order[k]);
            proof {
                assert(r@ =~= self@.order.take(k + 1));
            }
            k += 1;
        }
        proof {
            assert(r@ =~= self@.order);
        }
        r
    }

    /// The output port that feeds input `name` of component `id`, if any.
    fn feeder(&self, id: usize, name: &String) -> (r: Option<Node>)
        requires
            self@.wf(),
        ensures
            node_opt_view(r) == self@.feeder(id, name@),
    {
        let ghost conns = self@.connections;
        let mut k: usize = 0;
        while k < self.connections.len()
            invariant
                self@.wf(),
                k <= self.connections.len(),
                conns == self@.connections,
                forall|q: int| 0 <= q < k ==> !(#[trigger] conns[q].to.id == id && conns[q].to.name == name@),
            decreases self.connections.len() - k,
        {
            if self.connections[k].to.id == id && self.connections[k].to.name == *name {
                proof {
                    assert(conns[k as int] == self.connections@[k as int]@);
                    assert(conns[k as int].to.id == id);
                    let q = choose|q: int|
                        0 <= q < conns.len() && #[trigger] conns[q].to.id == id && conns[q].to.name == name@;
                    if q < k {
                        assert(!(conns[q].to.id == conns[k as int].to.id && conns[q].to.name == conns[k as int].to.name));
                    } else if q > k {
                        assert(!(conns[k as int].to.id == conns[q].to.id && conns[k as int].to.name == conns[q].to.name));
                    }
                }
                return Some(self.connections[k].from.duplicate());
            }
            k += 1;
        }
        None
    }

    /// The step of an evaluation pass for the component at index `i`.
    fn step_at(&self, i: usize) -> (r: Step)
        requires
            self@.wf(),
            i < self@.components.len(),
        ensures
            r@ == self@.step(self@.components[i as int].id),
    {
        let c = &self.components[i];
        let id = c.id;
        let ghost cv = self@.components[i as int];
        proof {
            assert(cv == c.view());
            let q = self@.component_index(id);
            assert(self@.components[q].id == id);
            if q < i {
                assert(self@.components[q].id != self@.components[i as int].id);
            } else if q > i {
                assert(self@.components[i as int].id != self@.components[q].id);
            }
        }
        let mut inputs: Vec<(String, Option<Node>)> = Vec::new();
        let mut k: usize = 0;
        while k < c.inputs.len()
            invariant
                self@.wf(),
                i < self.components.len(),
                c == &self.components[i as int],
                cv == self@.components[i as int],
                cv == c.view(),
                k <= c.inputs.len(),
                inputs@.map_values(|p: (String, Option<Node>)| (p.0@, node_opt_view(p.1)))
                    == cv.inputs.take(k as int).map_values(|p: (Seq<char>, IOType)| (p.0, self@.feeder(id, p.0))),
            decreases c.inputs.len() - k,
        {
            let ghost before = inputs@;
            let name = &c.inputs[k].0;
            let src = self.feeder(id, name);
            inputs.push((name.clone(), src));
            proof {
                assert(cv.inputs[k as int].0 == name@);
                assert(cv.inputs.take(k + 1) =~= cv.inputs.take(k as int).push(cv.inputs[k as int]));
                assert(inputs@.map_values(|p: (String, Option<Node>)| (p.0@, node_opt_view(p.1))) =~= before.map_values(
                    |p: (String, Option<Node>)| (p.0@, node_opt_view(p.1)),
                ).push((name@, node_opt_view(src))));
                assert(cv.inputs.take(k + 1).map_values(|p: (Seq<char>, IOType)| (p.0, self@.feeder(id, p.0))) =~= cv.inputs.take(
                    k as int,
                ).map_values(|p: (Seq<char>, IOType)| (p.0, self@.feeder(id, p.0))).push((name@, self@.feeder(id, name@))));
            }
            k += 1;
        }
        let mut outputs: Vec<String> = Vec::new();
        let mut k: usize = 0;
        while k < c.outputs.len()
            invariant
                i < self.components.len(),
                c == &self.components[i as int],
                cv == self@.components[i as int],
                cv == c.view(),
                k <= c.outputs.len(),
                outputs@.map_values(|n: String| n@) == cv.outputs.take(k as int).map_values(|p: (Seq<char>, IOType)| p.0),
            decreases c.outputs.len() - k,
        {
            let ghost before = outputs@;
            let name = &c.outputs[k].0;
            outputs.push(name.clone());
            proof {
                assert(cv.outputs[k as int].0 == name@);
                assert(cv.outputs.take(k + 1) =~= cv.outputs.take(k as int).push(cv.outputs[k as int]));
                assert(outputs@.map_values(|n: String| n@) =~= before.map_values(|n: String| n@).push(name@));
                assert(cv.outputs.take(k + 1).map_values(|p: (Seq<char>, IOType)| p.0) =~= cv.outputs.take(k as int).map_values(
                    |p: (Seq<char>, IOType)| p.0,
                ).push(name@));
            }
            k += 1;
        }
        proof {
            assert(cv.inputs.take(cv.inputs.len() as int) =~= cv.inputs);
            assert(cv.outputs.take(cv.outputs.len() as int) =~= cv.outputs);
        }
        Step { id, inputs, outputs }
    }

    /// What one evaluation pass does: a step per component in the evaluation
    /// order, each naming the buffer that feeds each declared input.
    pub fn evaluation_plan(&self) -> (r: Vec<Step>)
        requires
            self@.wf(),
        ensures
            r@.map_values(|s: Step| s@) == self@.plan(),
    {
        let ghost order = self@.order;
        let mut r: Vec<Step> = Vec::new();
        let mut j: usize = 0;
        while j < self.evaluation_order.len()
            invariant
                self@.wf(),
                order == self@.order,
                j <= order.len(),
                r@.map_values(|s: Step| s@) == order.take(j as int).map_values(|id: usize| self@.step(id)),
            decreases order.len() - j,
        {
            let id = self.evaluation_order[j];
            proof {
                assert(order.contains(id));
                assert(order.to_set().contains(id));
            }
            let i = match self.find_component(id) {
                Some(i) => i,
                None => {
                    proof {
                        let t = self@.components.map_values(|c: ComponentView| c.id);
                        let q = choose|q: int| 0 <= q < t.len() && t[q] == id;
                        assert(self@.components[q].id == id);
                    }
                    return r;
                },
            };
            let ghost before = r@;
            r.push(self.step_at(i));
            proof {
                assert(r@.map_values(|s: Step| s@) =~= before.map_values(|s: Step| s@).push(self@.step(id)));
                assert(order.take(j + 1) =~= order.take(j as int).push(id));
            }
            j += 1;
        }
        proof {
            assert(order.take(j as int) =~= order);
        }
        r
    }

    /// The id that the next added component gets.
    pub fn next_free_id(&self) -> (r: usize)
        ensures
            r == self@.next_id,
    {
        self.next_free_id
    }

    /// Adds a component with these declared input and output ports, without
    /// connections, and returns its id; ids are never reused.
    pub fn add_model(&mut self, inputs: Vec<(String, IOType)>, outputs: Vec<(String, IOType)>) -> (r: usize)
        requires
            old(self)@.wf(),
            old(self)@.next_id < usize::MAX,
        ensures
            final(self)@.wf(),
            r == old(self)@.next_id,
            final(self)@ == old(self)@.with_component(ports_view(inputs@), ports_view(outputs@)),
    {
        let ghost g = self@;
        let id = self.next_free_id;
        let comp = Component { id, inputs, outputs };
        let ghost cv = comp.view();
        self.components.push(comp);
        self.next_free_id = id + 1;
        let ghost ids = g.ids().insert(id);
        proof {
            assert(self@.components =~= g.components.push(cv));
            assert(self@.ids() =~= ids) by {
                assert forall|x: usize| self@.ids().contains(x) <==> ids.contains(x) by {
                    let s = self@.components.map_values(|c: ComponentView| c.id);
                    let t = g.components.map_values(|c: ComponentView| c.id);
                    if ids.contains(x) && x != id {
                        let q = choose|q: int| 0 <= q < t.len() && t[q] == x;
                        assert(s[q] == x);
                    }
                    if x == id {
                        assert(s[g.components.len() as int] == x);
                    }
                    if s.contains(x) {
                        let q = choose|q: int| 0 <= q < s.len() && s[q] == x;
                        if q < t.len() {
                            assert(t[q] == x);
                        }
                    }
                }
            }
            assert forall|x: usize| g.ids().contains(x) implies x < id by {
                let t = g.components.map_values(|c: ComponentView| c.id);
                let q = choose|q: int| 0 <= q < t.len() && t[q] == x;
                assert(g.components[q].id == x);
            }
            assert forall|k: int| 0 <= k < g.connections.len() implies {
                &&& #[trigger] g.connections[k].to.id != id
                &&& g.connections[k].from.id != id
                &&& self@.joins_declared_ports(g.connections[k])
            } by {
                let e = g.connections[k];
                assert(g.joins_declared_ports(e));
                let i = choose|i: int| 0 <= i < g.components.len() && #[trigger] g.components[i].id == e.to.id
                    && g.components[i].inputs.contains((e.to.name, e.to.io));
                let j = choose|j: int| 0 <= j < g.components.len() && #[trigger] g.components[j].id == e.from.id
                    && g.components[j].outputs.contains((e.from.name, e.from.io));
                assert(self@.components[i] == g.components[i]);
                assert(self@.components[j] == g.components[j]);
            }
            let w = g.order.push(id);
            assert(w.to_set() =~= ids) by {
                assert forall|x: usize| w.contains(x) <==> ids.contains(x) by {
                    if g.order.contains(x) {
                        let q = choose|q: int| 0 <= q < g.order.len() && g.order[q] == x;
                        assert(w[q] == x);
                    }
                    if w.contains(x) {
                        let q = choose|q: int| 0 <= q < w.len() && w[q] == x;
                        if q < g.order.len() {
                            assert(g.order[q] == x);
                        }
                    }
                    assert(w[g.order.len() as int] == id);
                    assert(g.order.to_set().contains(x) == g.order.contains(x));
                }
            }
            assert(!g.order.contains(id)) by {
                assert(g.order.to_set().contains(id) == g.order.contains(id));
            }
            assert forall|i: int, j: int| 0 <= i <= j < w.len() implies
                !has_edge(g.connections, #[trigger] w[j], #[trigger] w[i]) by {
                if j == g.order.len() {
                    if has_edge(g.connections, w[j], w[i]) {
                        let k = choose|k: int| 0 <= k < g.connections.len() && #[trigger] g.connections[k].from.id == w[j]
                            && g.connections[k].to.id == w[i];
                    }
                } else {
                    assert(w[i] == g.order[i]);
                    assert(w[j] == g.order[j]);
                }
            }
            assert forall|i: int, j: int| 0 <= i < j < w.len() implies w[i] != w[j] by {
                if j == g.order.len() {
                    assert(w[i] == g.order[i]);
                    assert(g.order.contains(g.order[i]));
                } else {
                    assert(w[i] == g.order[i]);
                    assert(w[j] == g.order[j]);
                }
            }
            assert(is_topological(w, ids, g.connections));
            assert(self@.connections == g.connections);
        }
        match self.sort() {
            Ok(order) => {
                self.evaluation_order = order;
            },
            Err(_) => {
                proof {
                    assert(false);
                }
            },
        }
        proof {
            assert(self@ =~= g.with_component(cv.inputs, cv.outputs));
            assert forall|i: int, j: int|
                0 <= i < j < self@.components.len() implies #[trigger] self@.components[i].id
                    != #[trigger] self@.components[j].id by {
                if j == g.components.len() {
                    assert(g.components[i].id < id);
                }
            }
        }
        id
    }

    /// Removes component `id` with every connection into or out of it; false
    /// where no component has that id.
    pub fn remove_model(&mut self, id: usize) -> (r: bool)
        requires
            old(self)@.wf(),
        ensures
            final(self)@.wf(),
            r == old(self)@.has(id),
            r ==> final(self)@ == old(self)@.without_component(id),
            !r ==> final(self)@ == old(self)@,
            forall|k: int| 0 <= k < final(self)@.connections.len() ==>
                (#[trigger] final(self)@.connections[k]).from.id != id && final(self)@.connections[k].to.id != id,
    {
        let ghost g = self@;
        let ghost keep = clear_of(id);
        let i = match self.find_component(id) {
            Some(i) => i,
            None => return false,
        };
        let mut kept: Vec<Connection> = Vec::new();
        let ghost mut src: Seq<int> = Seq::empty();
        let mut k: usize = 0;
        while k < self.connections.len()
            invariant
                self@ == g,
                keep == clear_of(id),
                k <= self.connections.len(),
                kept@.map_values(|c: Connection| c@) == g.connections.take(k as int).filter(keep),
                src.len() == kept@.len(),
                forall|q: int| 0 <= q < src.len() ==> 0 <= #[trigger] src[q] < k
                    && kept@[q]@ == g.connections[src[q]] && keep(kept@[q]@),
                forall|q: int, l: int| 0 <= q < l < src.len() ==> #[trigger] src[q] < #[trigger] src[l],
            decreases self.connections.len() - k,
        {
            let ghost before = kept@;
            proof {
                assert(g.connections.take(k + 1) =~= g.connections.take(k as int).push(g.connections[k as int]));
                g.connections.take(k as int).lemma_filter_push(g.connections[k as int], keep);
                assert(g.connections[k as int] == self.connections@[k as int]@);
            }
            if self.connections[k].from.id != id && self.connections[k].to.id != id {
                proof {
                    assert(keep(g.connections[k as int]));
                }
                kept.push(self.connections[k].duplicate());
                proof {
                    src = src.push(k as int);
                    assert(kept@.map_values(|c: Connection| c@) =~= before.map_values(|c: Connection| c@).push(g.connections[k as int]));
                    assert forall|q: int| 0 <= q < src.len() implies 0 <= #[trigger] src[q] < k + 1
                        && kept@[q]@ == g.connections[src[q]] && keep(kept@[q]@) by {
                        if q < before.len() {
                            assert(kept@[q] == before[q]);
                        }
                    }
                }
            } else {
                proof {
                    assert(!keep(g.connections[k as int]));
                }
            }
            k += 1;
        }
        proof {
            assert(g.connections.take(k as int) =~= g.connections);
        }
        let ghost conns = g.connections.filter(keep);
        self.connections = kept;
        self.components.remove(i);
        let ghost comps = g.components.remove(i as int);
        proof {
            let q = g.component_index(id);
            assert(g.components[q].id == id);
            assert(q == i);
            assert(self@.components =~= comps);
            assert(self@.connections == conns);
            assert forall|q: int| 0 <= q < conns.len() implies g.connections.contains(#[trigger] conns[q]) by {
                assert(conns[q] == g.connections[src[q]]);
            }
            crate::topology::lemma_fewer_edges(g.order, g.ids(), g.connections, conns);
            assert(g.order.to_set().contains(id) == g.order.contains(id));
            assert(g.ids().contains(id)) by {
                assert(g.components.map_values(|c: ComponentView| c.id)[i as int] == id);
            }
            let p = choose|p: int| 0 <= p < g.order.len() && g.order[p] == id;
            crate::topology::lemma_order_without(g.order, g.ids(), conns, p);
            assert(self@.ids() =~= g.ids().remove(id)) by {
                let s = self@.components.map_values(|c: ComponentView| c.id);
                let t = g.components.map_values(|c: ComponentView| c.id);
                assert forall|x: usize| s.contains(x) <==> g.ids().remove(id).contains(x) by {
                    if s.contains(x) {
                        let q = choose|q: int| 0 <= q < s.len() && s[q] == x;
                        let q2 = if q < i { q } else { q + 1 };
                        assert(t[q2] == x);
                        assert(q2 != i);
                    }
                    if g.ids().remove(id).contains(x) {
                        let q = choose|q: int| 0 <= q < t.len() && t[q] == x;
                        assert(q != i);
                        if q < i {
                            assert(s[q] == x);
                        } else {
                            assert(s[q - 1] == x);
                        }
                    }
                }
            }
        }
        match self.sort() {
            Ok(order) => {
                self.evaluation_order = order;
            },
            Err(_) => {
                proof {
                    assert(false);
                }
            },
        }
        proof {
            assert(self@ =~= g.without_component(id));
            assert forall|a: int, b: int|
                0 <= a < b < self@.components.len() implies #[trigger] self@.components[a].id
                    != #[trigger] self@.components[b].id by {
                let a2 = if a < i { a } else { a + 1 };
                let b2 = if b < i { b } else { b + 1 };
                assert(self@.components[a] == g.components[a2]);
                assert(self@.components[b] == g.components[b2]);
            }
            assert forall|a: int| 0 <= a < self@.components.len() implies #[trigger] self@.components[a].id < self@.next_id by {
                let a2 = if a < i { a } else { a + 1 };
                assert(self@.components[a] == g.components[a2]);
            }
            assert forall|q: int| 0 <= q < conns.len() implies self@.joins_declared_ports(#[trigger] conns[q]) by {
                let e = conns[q];
                assert(e == g.connections[src[q]]);
                assert(g.joins_declared_ports(e));
                let a = choose|a: int| 0 <= a < g.components.len() && #[trigger] g.components[a].id == e.to.id
                    && g.components[a].inputs.contains((e.to.name, e.to.io));
                let b = choose|b: int| 0 <= b < g.components.len() && #[trigger] g.components[b].id == e.from.id
                    && g.components[b].outputs.contains((e.from.name, e.from.io));
                assert(a != i && b != i);
                let a2 = if a < i { a } else { a - 1 };
                let b2 = if b < i { b } else { b - 1 };
                assert(self@.components[a2] == g.components[a]);
                assert(self@.components[b2] == g.components[b]);
            }
            assert forall|q: int, l: int|
                0 <= q < l < conns.len() implies !(#[trigger] conns[q].to.id
                    == #[trigger] conns[l].to.id && conns[q].to.name == conns[l].to.name) by {
                assert(conns[q] == g.connections[src[q]]);
                assert(conns[l] == g.connections[src[l]]);
            }
        }
        true
    }

    /// Adds `new_connection` after checking, in this order: that it does not
    /// join a component to itself, that the destination exists and declares
    /// the input, that the input is free, that the source exists and declares
    /// the output, and that no cycle results. A refused connection leaves the
    /// graph as it was.
    pub fn add_connection(&mut self, new_connection: Connection) -> (r: Result<(), ConnectionError>)
        requires
            old(self)@.wf(),
        ensures
            final(self)@.wf(),
            r == old(self)@.connect_outcome(new_connection@),
            r is Ok ==> final(self)@ == old(self)@.connected(new_connection@),
            r is Err ==> final(self)@ == old(self)@,
    {
        let ghost g = self@;
        let ghost c = new_connection@;
        if new_connection.from.id == new_connection.to.id {
            return Err(ConnectionError::LoopingConnection);
        }
        let ti = match self.find_component(new_connection.to.id) {
            Some(i) => i,
            None => return Err(ConnectionError::ControllerNotInGraph),
        };
        if !port_declared(&self.components[ti].inputs, &new_connection.to.name, new_connection.to.io) {
            proof {
                assert forall|i: int| 0 <= i < g.components.len() && #[trigger] g.components[i].id == c.to.id
                    implies !g.components[i].inputs.contains((c.to.name, c.to.io)) by {
                    assert(i == ti);
                }
            }
            return Err(ConnectionError::InputNotInComponent);
        }
        if self.input_occupied(new_connection.to.id, &new_connection.to.name) {
            return Err(ConnectionError::InputOccupied);
        }
        let fi = match self.find_component(new_connection.from.id) {
            Some(i) => i,
            None => return Err(ConnectionError::ControllerNotInGraph),
        };
        if !port_declared(&self.components[fi].outputs, &new_connection.from.name, new_connection.from.io) {
            proof {
                assert forall|i: int| 0 <= i < g.components.len() && #[trigger] g.components[i].id == c.from.id
                    implies !g.components[i].outputs.contains((c.from.name, c.from.io)) by {
                    assert(i == fi);
                }
            }
            return Err(ConnectionError::OutputNotInComponent);
        }
        proof {
            assert(g.components[ti as int].id == c.to.id);
            assert(g.components[fi as int].id == c.from.id);
        }
        self.connections.push(new_connection);
        proof {
            assert(self@.connections =~= g.connections.push(c));
            assert(self@.components == g.components);
        }
        match self.sort() {
            Ok(order) => {
                self.evaluation_order = order;
                proof {
                    assert(is_topological(self@.order, g.ids(), g.connections.push(c)));
                    assert(self@ =~= g.connected(c));
                    assert forall|k: int, l: int|
                        0 <= k < l < self@.connections.len() implies !(#[trigger] self@.connections[k].to.id
                            == #[trigger] self@.connections[l].to.id && self@.connections[k].to.name
                            == self@.connections[l].to.name) by {
                        if l == self@.connections.len() - 1 {
                            assert(self@.connections[k] == g.connections[k]);
                        } else {
                            assert(self@.connections[k] == g.connections[k]);
                            assert(self@.connections[l] == g.connections[l]);
                        }
                    }
                    assert forall|k: int| 0 <= k < self@.connections.len()
                        implies self@.joins_declared_ports(#[trigger] self@.connections[k]) by {
                        assert(self@.components == g.components);
                        if k < g.connections.len() {
                            assert(self@.connections[k] == g.connections[k]);
                            assert(g.joins_declared_ports(g.connections[k]));
                        } else {
                            assert(self@.connections[k] == c);
                            assert(self@.components[ti as int].id == c.to.id);
                            assert(self@.components[ti as int].inputs.contains((c.to.name, c.to.io)));
                            assert(self@.components[fi as int].id == c.from.id);
                            assert(self@.components[fi as int].outputs.contains((c.from.name, c.from.io)));
                        }
                    }
                }
                Ok(())
            },
            Err(e) => {
                self.connections.pop();
                proof {
                    assert(self@.connections =~= g.connections);
                    assert(self@ =~= g);
                }
                Err(e)
            },
        }
    }

    /// Removes `old_connection` from the graph if it is there, and says
    /// whether it was; refused where an endpoint names no component.
    pub fn remove_connection(&mut self, old_connection: Connection) -> (r: Result<bool, ConnectionError>)
        requires
            old(self)@.wf(),
        ensures
            final(self)@.wf(),
            r == old(self)@.disconnect_outcome(old_connection@),
            r is Ok ==> final(self)@ == old(self)@.disconnected(old_connection@),
            r is Err ==> final(self)@ == old(self)@,
    {
        let ghost g = self@;
        let ghost c = old_connection@;
        if self.find_component(old_connection.from.id).is_none() {
            return Err(ConnectionError::ControllerNotInGraph);
        }
        if self.find_component(old_connection.to.id).is_none() {
            return Err(ConnectionError::ControllerNotInGraph);
        }
        let k = match self.position_of(&old_connection) {
            Some(k) => k,
            None => {
                proof {
                    assert(self@ =~= g.disconnected(c));
                }
                return Ok(false);
            },
        };
        proof {
            assert(g.connections[k as int] == c);
            let q = g.connections.index_of(c);
            assert(g.connections[q] == c);
            assert(q == k);
        }
        self.connections.remove(k);
        proof {
            assert(self@.connections =~= g.connections.remove(k as int));
            assert forall|q: int| 0 <= q < self@.connections.len()
                implies g.connections.contains(#[trigger] self@.connections[q]) by {
                let q2 = if q < k { q } else { q + 1 };
                assert(self@.connections[q] == g.connections[q2]);
            }
            crate::topology::lemma_fewer_edges(g.order, g.ids(), g.connections, self@.connections);
        }
        match self.sort() {
            Ok(order) => {
                self.evaluation_order = order;
            },
            Err(_) => {
                proof {
                    assert(false);
                }
            },
        }
        proof {
            assert(self@ =~= g.disconnected(c));
            assert forall|q: int| 0 <= q < self@.connections.len()
                implies self@.joins_declared_ports(#[trigger] self@.connections[q]) by {
                let q2 = if q < k { q } else { q + 1 };
                assert(self@.connections[q] == g.connections[q2]);
                assert(g.joins_declared_ports(g.connections[q2]));
                assert(self@.components == g.components);
            }
            assert forall|q: int, l: int|
                0 <= q < l < self@.connections.len() implies !(#[trigger] self@.connections[q].to.id
                    == #[trigger] self@.connections[l].to.id && self@.connections[q].to.name
                    == self@.connections[l].to.name) by {
                let q2 = if q < k { q } else { q + 1 };
                let l2 = if l < k { l } else { l + 1 };
                assert(self@.connections[q] == g.connections[q2]);
                assert(self@.connections[l] == g.connections[l2]);
            }
        }
        Ok(true)
    }

    /// The evaluation order of the current components and connections, by
    /// Kahn's algorithm with the lowest ready id placed first.
    pub fn sort(&self) -> (r: Result<Vec<usize>, ConnectionError>)
        requires
            self@.ids_distinct(),
        ensures
            match r {
                Ok(o) => kahn_order(self@.ids(), self@.connections) == Some(o@)
                    && is_topological(o@, self@.ids(), self@.connections),
                Err(e) => e == ConnectionError::LoopingConnection
                    && kahn_order(self@.ids(), self@.connections) is None
                    && !acyclic(self@.ids(), self@.connections),
            },
    {
        let ghost ids = self@.ids();
        let ghost conns = self@.connections;
        let mut remaining: Vec<usize> = Vec::new();
        let mut i: usize = 0;
        while i < self.components.len()
            invariant
                i <= self.components.len(),
                remaining@ == self@.components.map_values(|c: ComponentView| c.id).take(i as int),
            decreases self.components.len() - i,
        {
            remaining.push(self.components[i].id);
            proof {
                assert(remaining@ =~= self@.components.map_values(|c: ComponentView| c.id).take(i + 1));
            }
            i += 1;
        }
        proof {
            assert(remaining@ =~= self@.components.map_values(|c: ComponentView| c.id));
            assert(remaining@.to_set() =~= ids);
        }
        let mut order: Vec<usize> = Vec::new();
        while remaining.len() > 0
            invariant
                ids == self@.ids(),
                conns == self@.connections,
                remaining@.no_duplicates(),
                order@.no_duplicates(),
                forall|x: usize| ids.contains(x) <==> (order@.contains(x) || remaining@.contains(x)),
                forall|x: usize| !(#[trigger] order@.contains(x) && remaining@.contains(x)),
                forall|i: int, j: int|
                    0 <= i <= j < order@.len() ==> !has_edge(conns, #[trigger] order@[j], #[trigger] order@[i]),
                forall|i: int, m: usize|
                    0 <= i < order@.len() && #[trigger] remaining@.contains(m) ==> !has_edge(conns, m, #[trigger] order@[i]),
                match kahn_order(remaining@.to_set(), conns) {
                    Some(rest) => kahn_order(ids, conns) == Some(order@ + rest),
                    None => kahn_order(ids, conns) is None,
                },
            decreases remaining.len(),
        {
            let ghost rem = remaining@.to_set();
            proof {
                vstd::seq_lib::seq_to_set_is_finite(remaining@);
                assert(rem.contains(remaining@[0]));
                vstd::set_lib::lemma_set_empty_equivalency_len(rem);
            }
            match self.lowest_ready(&remaining) {
                None => {
                    proof {
                        assert(!(exists|n: usize| is_lowest_ready(rem, conns, n)));
                        assert(kahn_order(rem, conns) is None);
                        assert(rem.subset_of(ids));
                        lemma_stuck_is_cyclic(ids, conns, rem, remaining@[0]);
                    }
                    return Err(ConnectionError::LoopingConnection);
                },
                Some(p) => {
                    let ghost old_order = order@;
                    let ghost old_rem = remaining@;
                    let n = remaining.remove(p);
                    proof {
                        let c = choose|c: usize| is_lowest_ready(rem, conns, c);
                        assert(is_ready(rem, conns, c));
                        assert(c <= n && n <= c);
                        assert(remaining@.to_set() =~= rem.remove(n)) by {
                            assert forall|x: usize| remaining@.contains(x) <==> (old_rem.contains(x) && x != n) by {
                                if old_rem.contains(x) && x != n {
                                    let q = choose|q: int| 0 <= q < old_rem.len() && old_rem[q] == x;
                                    assert(q != p);
                                    if q < p {
                                        assert(remaining@[q] == x);
                                    } else {
                                        assert(remaining@[q - 1] == x);
                                    }
                                }
                                if remaining@.contains(x) {
                                    let q = choose|q: int| 0 <= q < remaining@.len() && remaining@[q] == x;
                                    if q < p {
                                        assert(old_rem[q] == x);
                                    } else {
                                        assert(old_rem[q + 1] == x);
                                    }
                                }
                            }
                        }
                        match kahn_order(rem.remove(n), conns) {
                            Some(rest) => {
                                assert(old_order + (seq![n] + rest) =~= old_order.push(n) + rest);
                            },
                            None => {},
                        }
                    }
                    order.push(n);
                    proof {
                        assert forall|i: int, j: int|
                            0 <= i <= j < order@.len() implies !has_edge(conns, #[trigger] order@[j], #[trigger] order@[i]) by {
                            if j == order@.len() - 1 {
                                assert(old_rem.contains(n));
                                if i < j {
                                    assert(order@[i] == old_order[i]);
                                }
                            } else {
                                assert(order@[i] == old_order[i]);
                                assert(order@[j] == old_order[j]);
                            }
                        }
                        assert forall|i: int, m: usize|
                            0 <= i < order@.len() && #[trigger] remaining@.contains(m) implies !has_edge(conns, m, #[trigger] order@[i]) by {
                            assert(rem.contains(m));
                            if i < order@.len() - 1 {
                                assert(order@[i] == old_order[i]);
                            }
                        }
                        assert forall|x: usize| ids.contains(x) <==> (order@.contains(x) || remaining@.contains(x)) by {
                            if old_order.contains(x) {
                                let q = choose|q: int| 0 <= q < old_order.len() && old_order[q] == x;
                                assert(order@[q] == x);
                            }
                            if order@.contains(x) {
                                let q = choose|q: int| 0 <= q < order@.len() && order@[q] == x;
                                if q < old_order.len() {
                                    assert(old_order[q] == x);
                                }
                            }
                            assert(rem.contains(x) == (old_rem.contains(x)));
                            assert(remaining@.to_set().contains(x) == remaining@.contains(x));
                            assert(order@[order@.len() - 1] == n);
                        }
                        assert forall|x: usize| !(#[trigger] order@.contains(x) && remaining@.contains(x)) by {
                            if order@.contains(x) {
                                let q = choose|q: int| 0 <= q < order@.len() && order@[q] == x;
                                if q < old_order.len() {
                                    assert(old_order[q] == x);
                                    assert(old_order.contains(x));
                                }
                                assert(rem.contains(x) == (old_rem.contains(x)));
                            }
                        }
                        assert(!old_order.contains(n));
                        assert forall|i: int, j: int| 0 <= i < j < order@.len() implies order@[i] != order@[j] by {
                            if j == order@.len() - 1 {
                                assert(order@[i] == old_order[i]);
                                assert(old_order.contains(old_order[i]));
                            } else {
                                assert(order@[i] == old_order[i]);
                                assert(order@[j] == old_order[j]);
                            }
                        }
                    }
                },
            }
        }
        proof {
            assert(remaining@.to_set() =~= Set::<usize>::empty());
            assert(kahn_order(remaining@.to_set(), conns) == Some(Seq::<usize>::empty()));
            assert(order@ + Seq::<usize>::empty() =~= order@);
            assert(order@.to_set() =~= ids);
        }
        Ok(order)
    }
}

} // verus!
