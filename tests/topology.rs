use fdtd_cosim::lattice::{is_valid_wire, same_pos, same_wire, wire_axis, WireId};
use fdtd_cosim::node_map::{NodeMap, PrimitiveDiagram, RichPrimitiveDiagram};
use fdtd_cosim::wiring::{Port, Wiring3D};

#[derive(Clone, Copy, Debug, PartialEq)]
enum Elem {
    Resistor(f64),
    Tie,
}

fn empty_rich() -> RichPrimitiveDiagram<Elem> {
    RichPrimitiveDiagram {
        primitive: PrimitiveDiagram { num_nodes: 0, two_terminal: Vec::new() },
        ports: Vec::new(),
    }
}

fn build(rich: &mut RichPrimitiveDiagram<Elem>, wiring: &Wiring3D<f64>) -> NodeMap {
    NodeMap::new(rich, wiring, &|r: &f64| Elem::Resistor(*r), &|| Elem::Tie)
}

#[test]
fn wire_axis_of_unit_edges() {
    assert_eq!(wire_axis(((0, 0, 0), (1, 0, 0))), Some(0));
    assert_eq!(wire_axis(((2, 3, 4), (2, 4, 4))), Some(1));
    assert_eq!(wire_axis(((2, 3, 4), (2, 3, 5))), Some(2));
}

#[test]
fn diagonal_wire_is_rejected() {
    assert_eq!(wire_axis(((0, 0, 0), (1, 1, 0))), None);
    assert!(!is_valid_wire(((0, 0, 0), (1, 1, 0))));
}

#[test]
fn reversed_long_and_degenerate_wires_are_rejected() {
    assert_eq!(wire_axis(((1, 0, 0), (0, 0, 0))), None);
    assert_eq!(wire_axis(((0, 0, 0), (2, 0, 0))), None);
    assert_eq!(wire_axis(((3, 3, 3), (3, 3, 3))), None);
    assert_eq!(wire_axis(((usize::MAX, 0, 0), (0, 0, 0))), None);
}

#[test]
fn position_and_wire_equality() {
    assert!(same_pos((1, 2, 3), (1, 2, 3)));
    assert!(!same_pos((1, 2, 3), (1, 2, 4)));
    let w: WireId = ((0, 0, 0), (0, 0, 1));
    assert!(same_wire(w, w));
    assert!(!same_wire(w, ((0, 0, 1), (0, 0, 0))));
}

#[test]
fn wiring_insert_replace_get_remove() {
    let mut wiring: Wiring3D<f64> = Wiring3D::new();
    assert_eq!(wiring.insert(((0, 0, 0), (1, 0, 0)), 2.0), None);
    assert_eq!(wiring.insert(((1, 0, 0), (1, 1, 0)), 3.0), None);
    assert_eq!(wiring.insert(((0, 0, 0), (1, 0, 0)), 5.0), Some(2.0));
    assert_eq!(wiring.wires().len(), 2);
    assert_eq!(wiring.wires()[0].1, 5.0);
    assert_eq!(wiring.get(((0, 0, 0), (1, 0, 0))), Some(&5.0));
    assert_eq!(wiring.get(((1, 0, 0), (0, 0, 0))), Some(&5.0));
    assert_eq!(wiring.get(((0, 0, 0), (0, 1, 0))), None);
    wiring.remove(((1, 1, 0), (1, 0, 0)));
    assert_eq!(wiring.wires().len(), 1);
    assert_eq!(wiring.wires()[0].0, ((0, 0, 0), (1, 0, 0)));
}

#[test]
fn wiring_ports_replace_and_remove() {
    let mut wiring: Wiring3D<f64> = Wiring3D::new();
    assert!(wiring.set_port((1, 1, 1), Port("a".to_string())).is_none());
    let prev = wiring.set_port((1, 1, 1), Port("b".to_string()));
    assert_eq!(prev.map(|p| p.0), Some("a".to_string()));
    assert_eq!(wiring.ports().len(), 1);
    assert_eq!(wiring.ports()[0].1 .0, "b");
    assert_eq!(wiring.remove_port((1, 1, 1)).map(|p| p.0), Some("b".to_string()));
    assert!(wiring.remove_port((1, 1, 1)).is_none());
    assert!(wiring.ports().is_empty());
}

#[test]
fn node_map_numbers_ends_in_first_use_order() {
    let mut wiring: Wiring3D<f64> = Wiring3D::new();
    wiring.insert(((4, 4, 4), (5, 4, 4)), 10.0);
    wiring.insert(((5, 4, 4), (5, 5, 4)), 20.0);
    let mut rich = empty_rich();
    rich.primitive.num_nodes = 3;
    rich.primitive.two_terminal.push(((0, 1), Elem::Tie));
    let map = build(&mut rich, &wiring);
    assert_eq!(map.pos_map, vec![((4, 4, 4), 3), ((5, 4, 4), 4), ((5, 5, 4), 5)]);
    assert_eq!(map.node_of((5, 5, 4)), Some(5));
    assert_eq!(map.node_of((0, 0, 0)), None);
    assert_eq!(map.component_of(((5, 4, 4), (5, 5, 4))), Some(2));
    assert_eq!(map.component_of(((5, 5, 4), (5, 4, 4))), None);
    assert_eq!(rich.primitive.num_nodes, 6);
    assert_eq!(
        map.component_idx_map,
        vec![(((4, 4, 4), (5, 4, 4)), 1), (((5, 4, 4), (5, 5, 4)), 2)]
    );
    assert_eq!(
        rich.primitive.two_terminal,
        vec![((0, 1), Elem::Tie), ((3, 4), Elem::Resistor(10.0)), ((4, 5), Elem::Resistor(20.0))]
    );
}

#[test]
fn node_map_is_deterministic() {
    let mut wiring: Wiring3D<f64> = Wiring3D::new();
    wiring.insert(((1, 1, 1), (1, 1, 2)), 1.0);
    wiring.insert(((0, 1, 1), (1, 1, 1)), 1.0);
    wiring.insert(((3, 3, 3), (3, 4, 3)), 1.0);
    wiring.set_port((1, 1, 2), Port("p".to_string()));
    wiring.set_port((3, 4, 3), Port("p".to_string()));
    let mut r1 = empty_rich();
    let mut r2 = empty_rich();
    let m1 = build(&mut r1, &wiring);
    let m2 = build(&mut r2, &wiring);
    assert_eq!(m1.pos_map, m2.pos_map);
    assert_eq!(m1.component_idx_map, m2.component_idx_map);
    assert_eq!(r1.primitive.two_terminal, r2.primitive.two_terminal);
    assert_eq!(r1.ports, r2.ports);
}

#[test]
fn node_map_registers_ports_and_ties_groups() {
    let mut wiring: Wiring3D<f64> = Wiring3D::new();
    wiring.insert(((0, 0, 0), (1, 0, 0)), 1.0);
    wiring.insert(((2, 0, 0), (3, 0, 0)), 1.0);
    wiring.set_port((0, 0, 0), Port("gnd".to_string()));
    wiring.set_port((3, 0, 0), Port("gnd".to_string()));
    wiring.set_port((1, 0, 0), Port("vcc".to_string()));
    wiring.set_port((9, 9, 9), Port("gnd".to_string()));
    let mut rich = empty_rich();
    rich.primitive.num_nodes = 2;
    rich.ports.push(("gnd".to_string(), vec![0]));
    rich.ports.push(("vcc".to_string(), vec![1]));
    let map = build(&mut rich, &wiring);
    // wire ends are numbered 2, 3, 4, 5
    assert_eq!(map.node_of((3, 0, 0)), Some(5));
    assert_eq!(
        rich.ports,
        vec![("gnd".to_string(), vec![0, 2, 5]), ("vcc".to_string(), vec![1, 3])]
    );
    let ties: Vec<(usize, usize)> = rich.primitive.two_terminal[2..]
        .iter()
        .map(|e| {
            assert_eq!(e.1, Elem::Tie);
            e.0
        })
        .collect();
    assert_eq!(ties, vec![(0, 2), (0, 5), (2, 5), (1, 3)]);
}

#[test]
fn node_map_new_port_group_appended() {
    let mut wiring: Wiring3D<f64> = Wiring3D::new();
    wiring.insert(((0, 0, 0), (0, 0, 1)), 1.0);
    wiring.set_port((0, 0, 0), Port("x".to_string()));
    wiring.set_port((0, 0, 1), Port("x".to_string()));
    let mut rich = empty_rich();
    let map = build(&mut rich, &wiring);
    assert_eq!(map.pos_map.len(), 2);
    assert_eq!(rich.ports, vec![("x".to_string(), vec![0, 1])]);
    assert_eq!(rich.primitive.two_terminal, vec![((0, 1), Elem::Resistor(1.0)), ((0, 1), Elem::Tie)]);
}

#[test]
fn node_map_of_empty_wiring() {
    let wiring: Wiring3D<f64> = Wiring3D::new();
    let mut rich = empty_rich();
    let map = build(&mut rich, &wiring);
    assert!(map.pos_map.is_empty());
    assert!(map.component_idx_map.is_empty());
    assert_eq!(rich.primitive.num_nodes, 0);
    assert!(rich.primitive.two_terminal.is_empty());
}

#[test]
fn ordered_wire_ids_sorts_lexicographically() {
    let mut wiring: Wiring3D<f64> = Wiring3D::new();
    wiring.insert(((1, 0, 0), (1, 0, 1)), 1.0);
    wiring.insert(((0, 2, 0), (1, 2, 0)), 1.0);
    wiring.insert(((0, 2, 0), (0, 2, 1)), 1.0);
    wiring.insert(((0, 0, 5), (0, 1, 5)), 1.0);
    assert_eq!(
        wiring.ordered_wire_ids(),
        vec![
            ((0, 0, 5), (0, 1, 5)),
            ((0, 2, 0), (0, 2, 1)),
            ((0, 2, 0), (1, 2, 0)),
            ((1, 0, 0), (1, 0, 1)),
        ]
    );
}

#[test]
fn get_mut_edits_in_place_under_either_orientation() {
    let mut wiring: Wiring3D<f64> = Wiring3D::new();
    wiring.insert(((2, 2, 2), (2, 2, 3)), 1.0);
    if let Some(r) = wiring.get_mut(((2, 2, 3), (2, 2, 2))) {
        *r = 4.5;
    }
    assert_eq!(wiring.get(((2, 2, 2), (2, 2, 3))), Some(&4.5));
    assert!(wiring.get_mut(((0, 0, 0), (0, 0, 1))).is_none());
}
