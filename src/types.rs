//! Ports, connections and the errors of graph mutations.
use vstd::prelude::*;

verus! {

/// The kind of value that flows through a port.
#[derive(Clone, Copy, Debug, Hash, PartialEq, Eq, Structural)]
pub enum IOType {
    /// A continuous stream of samples.
    Voltage,
}

/// Why a graph mutation was refused.
#[derive(Clone, Copy, Debug, Hash, PartialEq, Eq, Structural)]
pub enum ConnectionError {
    /// The connection joins a component to itself, or would close a cycle.
    LoopingConnection,
    /// An endpoint names a component that is not in the graph.
    ControllerNotInGraph,
    /// The destination input already has a connection.
    InputOccupied,
    /// The two endpoints carry different kinds of value.
    MismatchedConnectionTypes,
    /// The destination declares no input of that name and type.
    InputNotInComponent,
    /// The source declares no output of that name and type.
    OutputNotInComponent,
}

/// One named, typed endpoint of a component.
#[derive(Clone, Debug, Hash)]
pub struct Node {
    pub id: usize,
    pub io: IOType,
    pub name: String,
}

/// The mathematical value of a [`Node`]: its name as a character sequence.
pub struct NodeView {
    pub id: usize,
    pub io: IOType,
    pub name: Seq<char>,
}

impl View for Node {
    type V = NodeView;

    open spec fn view(&self) -> NodeView {
        NodeView { id: self.id, io: self.io, name: self.name@ }
    }
}

impl Node {
    /// A copy of this endpoint with the same view.
    pub fn duplicate(&self) -> (r: Node)
        ensures
            r@ == self@,
    {
        Node { id: self.id, io: self.io, name: self.name.clone() }
    }

    /// Whether two endpoints are the same: same component, type and name.
    pub fn same(&self, o: &Node) -> (r: bool)
        ensures
            r == (self@ == o@),
    {
        self.id == o.id && self.io == o.io && self.name == o.name
    }
}

impl PartialEq for Node {
    fn eq(&self, o: &Node) -> (r: bool) {
        self.same(o)
    }
}

impl vstd::std_specs::cmp::PartialEqSpecImpl for Node {
    open spec fn obeys_eq_spec() -> bool {
        true
    }

    open spec fn eq_spec(&self, o: &Node) -> bool {
        self@ == o@
    }
}

impl Eq for Node {}

/// A directed edge from an output port to an input port.
#[derive(Clone, Debug, Hash)]
pub struct Connection {
    pub from: Node,
    pub to: Node,
}

/// The mathematical value of a [`Connection`].
pub struct ConnView {
    pub from: NodeView,
    pub to: NodeView,
}

impl View for Connection {
    type V = ConnView;

    open spec fn view(&self) -> ConnView {
        ConnView { from: self.from@, to: self.to@ }
    }
}

impl Connection {
    /// A copy of this connection with the same view.
    pub fn duplicate(&self) -> (r: Connection)
        ensures
            r@ == self@,
    {
        Connection { from: self.from.duplicate(), to: self.to.duplicate() }
    }

    /// Whether two connections join the same two ports.
    pub fn same(&self, o: &Connection) -> (r: bool)
        ensures
            r == (self@ == o@),
    {
        self.from.same(&o.from) && self.to.same(&o.to)
    }
}

impl PartialEq for Connection {
    fn eq(&self, o: &Connection) -> (r: bool) {
        self.same(o)
    }
}

impl vstd::std_specs::cmp::PartialEqSpecImpl for Connection {
    open spec fn obeys_eq_spec() -> bool {
        true
    }

    open spec fn eq_spec(&self, o: &Connection) -> bool {
        self@ == o@
    }
}

impl Eq for Connection {}

} // verus!
