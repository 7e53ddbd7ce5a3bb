//! Facts about the graph that relate several operations.
use vstd::prelude::*;

use crate::graph::{ComponentView, GraphView};
use crate::topology::{acyclic, has_edge, is_topological, sorted_order};
use crate::types::ConnView;

verus! {

/// An evaluation pass visits each component exactly once, and every
/// component that feeds an input is visited before the component it feeds.
pub proof fn lemma_pass_visits_producers_first(g: GraphView)
    requires
        g.wf(),
    ensures
        g.plan().len() == g.order.len(),
        g.order.no_duplicates(),
        g.order.to_set() == g.ids(),
        forall|j: int| 0 <= j < g.plan().len() ==> (#[trigger] g.plan()[j]).id == g.order[j],
        forall|j: int, q: int|
            0 <= j < g.plan().len() && 0 <= q < g.plan()[j].inputs.len()
                && (#[trigger] g.plan()[j].inputs[q]).1 is Some ==> exists|i: int|
                0 <= i < j && g.plan()[i].id == g.plan()[j].inputs[q].1->Some_0.id,
{
    assert forall|j: int, q: int|
        0 <= j < g.plan().len() && 0 <= q < g.plan()[j].inputs.len()
            && (#[trigger] g.plan()[j].inputs[q]).1 is Some implies exists|i: int|
            0 <= i < j && g.plan()[i].id == g.plan()[j].inputs[q].1->Some_0.id by {
        let id = g.order[j];
        let c = g.components[g.component_index(id)];
        let name = c.inputs[q].0;
        assert(g.plan()[j] == g.step(id));
        assert(g.plan()[j].inputs[q] == (name, g.feeder(id, name)));
        let k = choose|k: int|
            0 <= k < g.connections.len() && #[trigger] g.connections[k].to.id == id
                && g.connections[k].to.name == name;
        let e = g.connections[k];
        let src = e.from.id;
        assert(g.joins_declared_ports(e));
        let a = choose|a: int| 0 <= a < g.components.len() && #[trigger] g.components[a].id == src
            && g.components[a].outputs.contains((e.from.name, e.from.io));
        assert(g.components.map_values(|c: ComponentView| c.id)[a] == src);
        assert(g.ids().contains(src));
        assert(g.order.to_set().contains(src));
        let i = choose|i: int| 0 <= i < g.order.len() && g.order[i] == src;
        assert(has_edge(g.connections, src, id));
        if i >= j {
            assert(!has_edge(g.connections, g.order[i], g.order[j]));
        }
        assert(g.plan()[i].id == src);
    }
}

/// Where a connection already leads from one component to another, a
/// connection back the other way would close a cycle, and is refused.
pub proof fn lemma_reverse_connection_refused(g: GraphView, c: ConnView)
    requires
        g.wf(),
        exists|k: int| 0 <= k < g.connections.len() && #[trigger] g.connections[k].from.id == c.to.id
            && g.connections[k].to.id == c.from.id,
    ensures
        !acyclic(g.ids(), g.connections.push(c)),
        g.connect_outcome(c) is Err,
{
    let conns = g.connections.push(c);
    let k = choose|k: int| 0 <= k < g.connections.len() && #[trigger] g.connections[k].from.id == c.to.id
        && g.connections[k].to.id == c.from.id;
    let e = g.connections[k];
    assert(g.joins_declared_ports(e));
    let a = choose|a: int| 0 <= a < g.components.len() && #[trigger] g.components[a].id == e.to.id
        && g.components[a].inputs.contains((e.to.name, e.to.io));
    let b = choose|b: int| 0 <= b < g.components.len() && #[trigger] g.components[b].id == e.from.id
        && g.components[b].outputs.contains((e.from.name, e.from.io));
    assert(g.components.map_values(|c: ComponentView| c.id)[a] == e.to.id);
    assert(g.components.map_values(|c: ComponentView| c.id)[b] == e.from.id);
    assert(conns[k] == e);
    assert(conns[g.connections.len() as int] == c);
    assert(has_edge(conns, c.to.id, c.from.id));
    assert(has_edge(conns, c.from.id, c.to.id));
    if acyclic(g.ids(), conns) {
        let o = choose|o: Seq<usize>| is_topological(o, g.ids(), conns);
        assert(o.to_set().contains(c.from.id));
        assert(o.to_set().contains(c.to.id));
        let i = choose|i: int| 0 <= i < o.len() && o[i] == c.from.id;
        let j = choose|j: int| 0 <= j < o.len() && o[j] == c.to.id;
        if i <= j {
            assert(!has_edge(conns, o[j], o[i]));
        } else {
            assert(!has_edge(conns, o[i], o[j]));
        }
    }
}

/// Adding a connection and then removing it gives back the connections and
/// the evaluation order from before.
pub proof fn lemma_add_then_remove_restores(g: GraphView, c: ConnView)
    requires
        g.wf(),
        g.connect_outcome(c) is Ok,
    ensures
        g.connected(c).disconnected(c).connections == g.connections,
        g.connected(c).disconnected(c).order == g.order,
        g.connected(c).disconnected(c) == g,
{
    let h = g.connected(c);
    let n = g.connections.len() as int;
    assert(h.connections[n] == c);
    assert(h.connections.contains(c));
    let q = h.connections.index_of(c);
    if q < n {
        assert(h.connections[q] == g.connections[q]);
        assert(g.input_occupied(c.to.id, c.to.name));
    }
    assert(h.connections.remove(q) =~= g.connections);
    assert(h.ids() == g.ids());
    assert(sorted_order(g.ids(), g.connections) == g.order);
    assert(h.disconnected(c) =~= g);
}

} // verus!
