use proto::graph::Step;
use proto::{Connection, ConnectionError, Graph, IOType, Node};

fn port(name: &str) -> (String, IOType) {
    (String::from(name), IOType::Voltage)
}

fn node(id: usize, name: &str) -> Node {
    Node { id, io: IOType::Voltage, name: String::from(name) }
}

fn link(from: usize, from_name: &str, to: usize, to_name: &str) -> Connection {
    Connection { from: node(from, from_name), to: node(to, to_name) }
}

/// A source with one output `Audio`.
fn add_source(g: &mut Graph) -> usize {
    g.add_model(vec![], vec![port("Audio")])
}

/// A pass-through unit with input `Audio` and output `Audio`.
fn add_through(g: &mut Graph) -> usize {
    g.add_model(vec![port("Audio")], vec![port("Audio")])
}

/// A sink with one input `Audio`.
fn add_sink(g: &mut Graph) -> usize {
    g.add_model(vec![port("Audio")], vec![])
}

fn sorted(mut v: Vec<Connection>) -> Vec<(usize, String, usize, String)> {
    let mut r: Vec<(usize, String, usize, String)> =
        v.drain(..).map(|c| (c.from.id, c.from.name, c.to.id, c.to.name)).collect();
    r.sort();
    r
}

/// Runs one pass over sample buffers: sources emit `source`, every other
/// unit copies its `Audio` input to each of its outputs. Returns what each
/// component read on `Audio`.
fn run_pass(plan: &[Step], buffer_size: usize, source: &[f32]) -> Vec<(usize, Vec<f32>)> {
    let silent = vec![0.0f32; buffer_size];
    let mut produced: Vec<(usize, String, Vec<f32>)> = Vec::new();
    let mut seen: Vec<(usize, Vec<f32>)> = Vec::new();
    for step in plan {
        let mut audio = if step.inputs.is_empty() { source.to_vec() } else { silent.clone() };
        for (name, src) in &step.inputs {
            if let Some(src) = src {
                let buf = produced
                    .iter()
                    .find(|(id, out, _)| *id == src.id && *out == src.name)
                    .map(|(_, _, b)| b.clone())
                    .expect("a producer runs before its consumers");
                if name == "Audio" {
                    audio = buf;
                }
            }
        }
        if !step.inputs.is_empty() {
            seen.push((step.id, audio.clone()));
        }
        for out in &step.outputs {
            produced.push((step.id, out.clone(), audio.clone()));
        }
    }
    seen
}

#[test]
fn new_graph_is_empty() {
    let g = Graph::new(64);
    assert_eq!(g.buffer_size(), 64);
    assert!(g.connections().is_empty());
    assert!(g.evaluation_order().is_empty());
    assert_eq!(g.next_free_id(), 0);
}

#[test]
fn ids_are_assigned_in_sequence() {
    let mut g = Graph::new(4);
    assert_eq!(add_source(&mut g), 0);
    assert_eq!(add_sink(&mut g), 1);
    assert_eq!(g.next_free_id(), 2);
    assert_eq!(g.evaluation_order(), vec![0, 1]);
}

#[test]
fn source_feeds_sink_through_one_pass() {
    let mut g = Graph::new(4);
    let a = add_source(&mut g);
    let b = add_sink(&mut g);
    assert_eq!(g.add_connection(link(a, "Audio", b, "Audio")), Ok(()));
    assert_eq!(g.evaluation_order(), vec![a, b]);
    let plan = g.evaluation_plan();
    assert_eq!(plan.len(), 2);
    assert_eq!(plan[0].id, a);
    assert_eq!(plan[0].outputs, vec![String::from("Audio")]);
    assert_eq!(plan[1].id, b);
    assert_eq!(plan[1].inputs, vec![(String::from("Audio"), Some(node(a, "Audio")))]);
    let seen = run_pass(&plan, 4, &[1.0, 2.0, 3.0, 4.0]);
    assert_eq!(seen, vec![(b, vec![1.0, 2.0, 3.0, 4.0])]);
}

#[test]
fn unconnected_input_reads_silence() {
    let mut g = Graph::new(4);
    let b = add_sink(&mut g);
    let plan = g.evaluation_plan();
    assert_eq!(plan[0].inputs, vec![(String::from("Audio"), None)]);
    let seen = run_pass(&plan, 4, &[1.0, 2.0, 3.0, 4.0]);
    assert_eq!(seen, vec![(b, vec![0.0; 4])]);
}

#[test]
fn connecting_into_a_pure_source_is_refused() {
    let mut g = Graph::new(4);
    let a = add_source(&mut g);
    let b = add_sink(&mut g);
    assert_eq!(
        g.add_connection(link(b, "Audio", a, "Audio")),
        Err(ConnectionError::InputNotInComponent)
    );
    assert!(g.connections().is_empty());
}

#[test]
fn closing_a_three_cycle_is_refused() {
    let mut g = Graph::new(4);
    let a = add_through(&mut g);
    let b = add_through(&mut g);
    let c = add_through(&mut g);
    assert_eq!(g.add_connection(link(a, "Audio", b, "Audio")), Ok(()));
    assert_eq!(g.add_connection(link(b, "Audio", c, "Audio")), Ok(()));
    let before = sorted(g.connections());
    assert_eq!(
        g.add_connection(link(c, "Audio", a, "Audio")),
        Err(ConnectionError::LoopingConnection)
    );
    assert_eq!(g.evaluation_order(), vec![a, b, c]);
    assert_eq!(sorted(g.connections()), before);
}

#[test]
fn self_connection_is_refused() {
    let mut g = Graph::new(4);
    let a = add_through(&mut g);
    assert_eq!(
        g.add_connection(link(a, "Audio", a, "Audio")),
        Err(ConnectionError::LoopingConnection)
    );
    assert_eq!(
        g.add_connection(link(7, "Audio", 7, "Audio")),
        Err(ConnectionError::LoopingConnection)
    );
    assert!(g.connections().is_empty());
}

#[test]
fn reverse_connection_is_refused() {
    let mut g = Graph::new(4);
    let a = add_through(&mut g);
    let b = add_through(&mut g);
    assert_eq!(g.add_connection(link(a, "Audio", b, "Audio")), Ok(()));
    let before = sorted(g.connections());
    assert_eq!(
        g.add_connection(link(b, "Audio", a, "Audio")),
        Err(ConnectionError::LoopingConnection)
    );
    assert_eq!(sorted(g.connections()), before);
    assert_eq!(g.evaluation_order(), vec![a, b]);
}

#[test]
fn occupied_input_is_refused() {
    let mut g = Graph::new(4);
    let a = add_source(&mut g);
    let b = add_source(&mut g);
    let c = add_sink(&mut g);
    assert_eq!(g.add_connection(link(a, "Audio", c, "Audio")), Ok(()));
    assert_eq!(
        g.add_connection(link(b, "Audio", c, "Audio")),
        Err(ConnectionError::InputOccupied)
    );
    assert_eq!(g.connections(), vec![link(a, "Audio", c, "Audio")]);
}

#[test]
fn missing_components_are_refused() {
    let mut g = Graph::new(4);
    let a = add_source(&mut g);
    let b = add_sink(&mut g);
    assert_eq!(
        g.add_connection(link(a, "Audio", 9, "Audio")),
        Err(ConnectionError::ControllerNotInGraph)
    );
    assert_eq!(
        g.add_connection(link(9, "Audio", b, "Audio")),
        Err(ConnectionError::ControllerNotInGraph)
    );
    assert!(g.connections().is_empty());
}

#[test]
fn undeclared_ports_are_refused() {
    let mut g = Graph::new(4);
    let a = add_source(&mut g);
    let b = add_sink(&mut g);
    assert_eq!(
        g.add_connection(link(a, "Audio", b, "Side")),
        Err(ConnectionError::InputNotInComponent)
    );
    assert_eq!(
        g.add_connection(link(a, "Side", b, "Audio")),
        Err(ConnectionError::OutputNotInComponent)
    );
    assert!(g.connections().is_empty());
}

#[test]
fn remove_model_severs_its_connections() {
    let mut g = Graph::new(4);
    let a = add_source(&mut g);
    let b = add_through(&mut g);
    let c = add_sink(&mut g);
    assert_eq!(g.add_connection(link(a, "Audio", b, "Audio")), Ok(()));
    assert_eq!(g.add_connection(link(b, "Audio", c, "Audio")), Ok(()));
    assert!(g.remove_model(b));
    assert!(g.connections().is_empty());
    assert_eq!(g.evaluation_order(), vec![a, c]);
    assert!(!g.remove_model(b));
    assert_eq!(
        g.add_connection(link(a, "Audio", b, "Audio")),
        Err(ConnectionError::ControllerNotInGraph)
    );
    assert_eq!(g.add_connection(link(a, "Audio", c, "Audio")), Ok(()));
}

#[test]
fn removed_ids_are_not_reused() {
    let mut g = Graph::new(4);
    let a = add_source(&mut g);
    assert!(g.remove_model(a));
    assert_eq!(add_source(&mut g), a + 1);
}

#[test]
fn add_then_remove_restores_connections_and_order() {
    let mut g = Graph::new(4);
    let a = add_through(&mut g);
    let b = add_through(&mut g);
    let c = add_through(&mut g);
    assert_eq!(g.add_connection(link(c, "Audio", a, "Audio")), Ok(()));
    let conns = sorted(g.connections());
    let order = g.evaluation_order();
    assert_eq!(order, vec![b, c, a]);
    assert_eq!(g.add_connection(link(a, "Audio", b, "Audio")), Ok(()));
    assert_eq!(g.evaluation_order(), vec![c, a, b]);
    assert_eq!(g.remove_connection(link(a, "Audio", b, "Audio")), Ok(true));
    assert_eq!(sorted(g.connections()), conns);
    assert_eq!(g.evaluation_order(), order);
}

#[test]
fn remove_connection_reports_presence() {
    let mut g = Graph::new(4);
    let a = add_source(&mut g);
    let b = add_sink(&mut g);
    assert_eq!(g.remove_connection(link(a, "Audio", b, "Audio")), Ok(false));
    assert_eq!(
        g.remove_connection(link(a, "Audio", 5, "Audio")),
        Err(ConnectionError::ControllerNotInGraph)
    );
    assert_eq!(
        g.remove_connection(link(5, "Audio", b, "Audio")),
        Err(ConnectionError::ControllerNotInGraph)
    );
}

#[test]
fn ready_components_go_lowest_id_first() {
    let mut g = Graph::new(4);
    let a = add_through(&mut g);
    let b = add_through(&mut g);
    let c = add_through(&mut g);
    assert_eq!(g.evaluation_order(), vec![a, b, c]);
    assert_eq!(g.add_connection(link(c, "Audio", a, "Audio")), Ok(()));
    assert_eq!(g.evaluation_order(), vec![b, c, a]);
}

#[test]
fn producers_come_before_consumers_in_the_plan() {
    let mut g = Graph::new(2);
    let ids: Vec<usize> = (0..5).map(|_| add_through(&mut g)).collect();
    assert_eq!(g.add_connection(link(ids[4], "Audio", ids[2], "Audio")), Ok(()));
    assert_eq!(g.add_connection(link(ids[2], "Audio", ids[0], "Audio")), Ok(()));
    assert_eq!(g.add_connection(link(ids[3], "Audio", ids[4], "Audio")), Ok(()));
    let plan = g.evaluation_plan();
    let order: Vec<usize> = plan.iter().map(|s| s.id).collect();
    assert_eq!(order, vec![1, 3, 4, 2, 0]);
    for (j, step) in plan.iter().enumerate() {
        for (_, src) in &step.inputs {
            if let Some(src) = src {
                assert!(plan[..j].iter().any(|s| s.id == src.id));
            }
        }
    }
}

#[test]
fn connections_compare_by_value() {
    assert_eq!(link(0, "Audio", 1, "Audio"), link(0, "Audio", 1, "Audio"));
    assert_ne!(link(0, "Audio", 1, "Audio"), link(0, "Audio", 1, "Other"));
    assert_eq!(node(3, "x"), node(3, "x").duplicate());
    assert!(link(2, "a", 3, "b").same(&link(2, "a", 3, "b").duplicate()));
}

#[test]
fn sort_agrees_with_the_cached_order() {
    let mut g = Graph::new(4);
    let a = add_through(&mut g);
    let b = add_through(&mut g);
    let c = add_through(&mut g);
    assert_eq!(g.add_connection(link(c, "Audio", b, "Audio")), Ok(()));
    assert_eq!(g.add_connection(link(b, "Audio", a, "Audio")), Ok(()));
    assert_eq!(g.sort(), Ok(vec![c, b, a]));
    assert_eq!(g.sort(), Ok(g.evaluation_order()));
}
