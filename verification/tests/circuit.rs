use electrocute::store::ComponentType;
use electrocute::{
    c64, Action, Circuit, CircuitError, ComponentKind, Components, Ground, LinearEquations,
    Locator,
};

fn z(re: f64, im: f64) -> c64 {
    c64::new(re.to_bits(), im.to_bits())
}

fn resistor() -> ComponentType {
    ComponentType::of_kind(ComponentKind::Resistor, 8, 8)
}

fn capacitor() -> ComponentType {
    ComponentType::of_kind(ComponentKind::Capacitor, 24, 8)
}

fn dc_source() -> ComponentType {
    ComponentType::of_kind(ComponentKind::DC1Source, 8, 8)
}

fn ground() -> ComponentType {
    ComponentType::of_kind(ComponentKind::Ground, 0, 1)
}

#[test]
fn kinds_have_the_metadata_of_the_table() {
    let two = vec![(0, 0), (0, 1), (1, 0), (1, 1)];
    let one = vec![(0, 0)];
    for kind in [
        ComponentKind::Resistor,
        ComponentKind::Capacitor,
        ComponentKind::Inductor,
    ] {
        assert_eq!(kind.terminal_count(), 2);
        assert_eq!(kind.priority(), 10);
        assert_eq!(kind.active_terminals(), two);
    }
    for kind in [
        ComponentKind::DC1Source,
        ComponentKind::AC1Source,
        ComponentKind::Ground,
    ] {
        assert_eq!(kind.terminal_count(), 1);
        assert_eq!(kind.priority(), 25);
        assert_eq!(kind.active_terminals(), one);
    }
    assert_eq!(ComponentKind::from_name("resistor"), Some(ComponentKind::Resistor));
    assert_eq!(ComponentKind::from_name("capacitor"), Some(ComponentKind::Capacitor));
    assert_eq!(ComponentKind::from_name("inductor"), Some(ComponentKind::Inductor));
    assert_eq!(
        ComponentKind::from_name("dc-source-1-terminal"),
        Some(ComponentKind::DC1Source)
    );
    assert_eq!(
        ComponentKind::from_name("ac-source-1-terminal"),
        Some(ComponentKind::AC1Source)
    );
    assert_eq!(ComponentKind::from_name("ground"), Some(ComponentKind::Ground));
    assert_eq!(ComponentKind::from_name("Ground"), None);
    assert_eq!(ComponentKind::from_name(""), None);
    for kind in [
        ComponentKind::Resistor,
        ComponentKind::Capacitor,
        ComponentKind::Inductor,
        ComponentKind::DC1Source,
        ComponentKind::AC1Source,
        ComponentKind::Ground,
    ] {
        assert_eq!(ComponentKind::from_name(kind.name()), Some(kind));
    }
}

#[test]
fn a_new_circuit_is_empty() {
    let circuit = Circuit::new();
    assert_eq!(circuit.store_count(), 0);
    assert_eq!(circuit.equations().dimensions(), (0, 0));
    assert_eq!(circuit.stamp_order(), Vec::<usize>::new());
    assert_eq!(circuit.schedule(), vec![Action::Reset, Action::Solve]);
    assert_eq!(circuit.locate("R1"), None);
    assert_eq!(circuit.store_of(0), None);
}

#[test]
fn placement_reserves_coordinates_and_stores_the_record() {
    let mut circuit = Circuit::new();
    let record = 500.0f64.to_bits().to_ne_bytes();
    let at = circuit
        .put_raw(resistor(), &record, Some("R1".to_string()), &[2, 0])
        .unwrap();
    assert_eq!(at, Locator { store: 0, index: 0 });
    assert_eq!(circuit.equations().dimensions(), (3, 3));
    assert_eq!(circuit.equations().index_of(2, 2), Some(3));
    assert_eq!(circuit.equations().index_of(2, 0), Some(2));
    assert_eq!(circuit.equations().index_of(0, 2), Some(1));
    assert_eq!(circuit.equations().index_of(0, 0), Some(0));
    assert_eq!(circuit.equations().index_of(1, 1), None);
    assert_eq!(circuit.equations().column_indices(), &vec![0, 2, 0, 2]);
    assert_eq!(circuit.equations().row_pointers(), &vec![0, 2, 2, 4]);

    let at = circuit.put_raw(ground(), &[], None, &[0]).unwrap();
    assert_eq!(at, Locator { store: 1, index: 0 });
    let at = circuit
        .put_raw(resistor(), &1000.0f64.to_bits().to_ne_bytes(), Some("R2".to_string()), &[1, 2])
        .unwrap();
    assert_eq!(at, Locator { store: 0, index: 1 });
    assert_eq!(circuit.store_count(), 2);
    assert_eq!(circuit.store_of(0), Some(0));
    assert_eq!(circuit.store_of(5), Some(1));
    assert_eq!(circuit.store_of(3), None);

    let store: &Components = circuit.store(0);
    assert_eq!(store.len(), 2);
    assert_eq!(store.record(0), &record[..]);
    assert_eq!(store.record(1), &1000.0f64.to_bits().to_ne_bytes()[..]);
    assert_eq!(store.terminals_of(0), &[2u32, 0][..]);
    assert_eq!(store.terminals_of(1), &[1u32, 2][..]);
    assert_eq!(store.component_type().terminal_count, 2);
    assert_eq!(circuit.store(1).len(), 1);
    assert_eq!(circuit.store(1).terminals_of(0), &[0u32][..]);
    assert_eq!(circuit.store(1).record(0), &[0u8][..]);

    assert_eq!(circuit.equations().dimensions(), (3, 3));
    for (i, j) in [(1, 1), (1, 2), (2, 1), (2, 2), (0, 0), (0, 2), (2, 0)] {
        assert!(circuit.equations().index_of(i, j).is_some());
    }
    assert_eq!(circuit.equations().values().len(), 7);

    assert_eq!(circuit.locate("R1"), Some(Locator { store: 0, index: 0 }));
    assert_eq!(circuit.locate("R2"), Some(Locator { store: 0, index: 1 }));
    assert_eq!(circuit.locate("R3"), None);
}

#[test]
fn wrong_terminal_count_is_refused() {
    let mut circuit = Circuit::new();
    assert_eq!(
        circuit.put_raw(resistor(), &[0; 8], None, &[1]),
        Err(CircuitError::TerminalCountMismatch {
            expected: 2,
            found: 1
        })
    );
    assert_eq!(
        circuit.put_raw(ground(), &[], Some("g".to_string()), &[1, 2]),
        Err(CircuitError::TerminalCountMismatch {
            expected: 1,
            found: 2
        })
    );
    assert_eq!(circuit.store_count(), 0);
    assert_eq!(circuit.equations().dimensions(), (0, 0));
    assert_eq!(circuit.locate("g"), None);
}

#[test]
fn placement_zeroes_the_values() {
    let mut circuit = Circuit::new();
    circuit.put_raw(ground(), &[], None, &[0]).unwrap();
    circuit.equations_mut().set_a(0, 0, z(1.0, 0.0)).unwrap();
    circuit.equations_mut().set_b(0, z(2.0, 0.0));
    circuit.put_raw(dc_source(), &[0; 8], None, &[1]).unwrap();
    assert_eq!(circuit.equations().values(), &vec![c64::zero(); 2]);
    assert_eq!(circuit.equations().rhs(), &vec![c64::zero(); 2]);
}

#[test]
fn stores_stamp_by_priority_and_then_by_registration() {
    let mut circuit = Circuit::new();
    circuit.put_raw(ground(), &[], None, &[0]).unwrap();
    circuit.put_raw(resistor(), &[0; 8], None, &[0, 1]).unwrap();
    circuit.put_raw(dc_source(), &[0; 8], None, &[1]).unwrap();
    circuit.put_raw(capacitor(), &[0; 24], None, &[1, 0]).unwrap();
    circuit.put_raw(resistor(), &[0; 8], None, &[1, 0]).unwrap();
    assert_eq!(circuit.store_count(), 4);
    assert_eq!(circuit.stamp_order(), vec![1, 3, 0, 2]);
    assert_eq!(
        circuit.schedule(),
        vec![
            Action::Reset,
            Action::Stamp { store: 1 },
            Action::Stamp { store: 3 },
            Action::Stamp { store: 0 },
            Action::Stamp { store: 2 },
            Action::Solve,
            Action::PostStamp { store: 1 },
            Action::PostStamp { store: 3 },
            Action::PostStamp { store: 0 },
            Action::PostStamp { store: 2 },
        ]
    );
}

#[test]
fn custom_types_join_the_order() {
    let mut circuit = Circuit::new();
    let late = ComponentType {
        type_id: 100,
        size: 4,
        alignment: 4,
        terminal_count: 3,
        priority: 30,
        active_terminals: vec![(0, 2), (2, 0)],
        parameters: vec!["gain".to_string()],
    };
    let early = ComponentType {
        type_id: 101,
        size: 1,
        alignment: 1,
        terminal_count: 0,
        priority: 0,
        active_terminals: vec![],
        parameters: vec![],
    };
    assert_eq!(circuit.register(late), 0);
    assert_eq!(circuit.register(ground()), 1);
    assert_eq!(circuit.register(early), 2);
    assert_eq!(circuit.register(ground()), 1);
    assert_eq!(circuit.stamp_order(), vec![2, 1, 0]);
    let same_key = ComponentType {
        type_id: 100,
        size: 4,
        alignment: 4,
        terminal_count: 3,
        priority: 30,
        active_terminals: vec![(0, 2), (2, 0)],
        parameters: vec!["gain".to_string()],
    };
    let at = circuit.put_raw(same_key, &[1, 2, 3, 4], None, &[4, 5, 6]).unwrap();
    assert_eq!(at, Locator { store: 0, index: 0 });
    assert_eq!(circuit.equations().dimensions(), (7, 7));
    assert_eq!(circuit.equations().index_of(4, 6), Some(0));
    assert_eq!(circuit.equations().index_of(6, 4), Some(1));
    assert_eq!(circuit.equations().index_of(4, 4), None);
    let at = circuit.put_raw(
        ComponentType {
            type_id: 101,
            size: 1,
            alignment: 1,
            terminal_count: 0,
            priority: 0,
            active_terminals: vec![],
            parameters: vec![],
        },
        &[7],
        None,
        &[],
    );
    assert_eq!(at, Ok(Locator { store: 2, index: 0 }));
    assert_eq!(circuit.store(2).terminals_of(0), &[0u32; 0][..]);
    assert_eq!(circuit.positions(Locator { store: 0, index: 0 }), vec![0, 1]);
    assert_eq!(circuit.positions(Locator { store: 2, index: 0 }), Vec::<usize>::new());
    assert!(circuit.store(0).component_type().publishes("gain"));
    assert!(!circuit.store(0).component_type().publishes("V"));
}

#[test]
fn positions_of_a_placed_component() {
    let mut circuit = Circuit::new();
    let r1 = circuit.put_raw(resistor(), &[0; 8], None, &[2, 0]).unwrap();
    let g = circuit.put_raw(ground(), &[], None, &[0]).unwrap();
    let r2 = circuit.put_raw(resistor(), &[0; 8], None, &[1, 1]).unwrap();
    assert_eq!(circuit.equations().column_indices(), &vec![0, 2, 1, 0, 2]);
    assert_eq!(circuit.positions(r1), vec![4, 3, 1, 0]);
    assert_eq!(circuit.positions(g), vec![0]);
    assert_eq!(circuit.positions(r2), vec![2, 2, 2, 2]);
    circuit.equations_mut().set_value(3, z(7.0, 0.0));
    assert_eq!(circuit.equations().get_a(2, 0), Ok(z(7.0, 0.0)));
    assert_eq!(circuit.equations().values()[3], z(7.0, 0.0));
}

#[test]
fn probes_find_published_quantities() {
    let mut circuit = Circuit::new();
    circuit
        .put_raw(resistor(), &[0; 8], Some("R1".to_string()), &[1, 0])
        .unwrap();
    circuit
        .put_raw(ground(), &[], Some("gnd".to_string()), &[0])
        .unwrap();
    circuit
        .put_raw(resistor(), &[0; 8], Some("R1".to_string()), &[2, 0])
        .unwrap();
    assert_eq!(circuit.probe("R1", "I"), Some(Locator { store: 0, index: 0 }));
    assert_eq!(circuit.probe("R1", "P"), Some(Locator { store: 0, index: 0 }));
    assert_eq!(circuit.probe("R1", "C"), None);
    assert_eq!(circuit.probe("gnd", "V"), None);
    assert_eq!(circuit.probe("R2", "I"), None);
    assert_eq!(circuit.locate("gnd"), Some(Locator { store: 1, index: 0 }));
}

#[test]
fn post_stamp_writes_back_the_record() {
    let mut circuit = Circuit::new();
    let mut record = [0u8; 24];
    record[..8].copy_from_slice(&1e-6f64.to_bits().to_ne_bytes());
    let first = circuit.put_raw(capacitor(), &record, None, &[1, 0]).unwrap();
    let second = circuit.put_raw(capacitor(), &record, None, &[2, 0]).unwrap();
    let mut next = record;
    next[8..16].copy_from_slice(&0.25f64.to_bits().to_ne_bytes());
    circuit.write_record(second, &next);
    assert_eq!(circuit.store(0).record(first.index), &record[..]);
    assert_eq!(circuit.store(0).record(second.index), &next[..]);
    assert_eq!(circuit.store(0).terminals_of(1), &[2u32, 0][..]);
}

#[test]
fn sources_pin_their_rows_over_what_was_stamped() {
    let mut circuit = Circuit::new();
    let gnd = 0u32;
    let a = 1u32;
    circuit.put_raw(ground(), &[], Some("gnd".to_string()), &[gnd]).unwrap();
    circuit
        .put_raw(dc_source(), &5.0f64.to_bits().to_ne_bytes(), Some("V1".to_string()), &[a])
        .unwrap();
    circuit
        .put_raw(resistor(), &500.0f64.to_bits().to_ne_bytes(), Some("R1".to_string()), &[a, gnd])
        .unwrap();
    circuit
        .put_raw(resistor(), &1000.0f64.to_bits().to_ne_bytes(), Some("R2".to_string()), &[a, gnd])
        .unwrap();
    assert_eq!(circuit.equations().dimensions(), (2, 2));
    assert_eq!(circuit.stamp_order(), vec![2, 0, 1]);

    for action in circuit.schedule() {
        match action {
            Action::Reset => circuit.equations_mut().reset(),
            Action::Stamp { store: 2 } => {
                let count = circuit.store(2).len();
                for k in 0..count {
                    let record = circuit.store(2).record(k);
                    let r = f64::from_bits(u64::from_ne_bytes(record[..8].try_into().unwrap()));
                    let nodes = circuit.store(2).terminals_of(k).to_vec();
                    let y = 1.0 / r;
                    for (i, j, sign) in [(0, 0, 1.0), (0, 1, -1.0), (1, 0, -1.0), (1, 1, 1.0)] {
                        let le = circuit.equations_mut();
                        let old = f64::from_bits(le.get_a(nodes[i], nodes[j]).unwrap().re);
                        le.set_a(nodes[i], nodes[j], z(old + sign * y, 0.0)).unwrap();
                    }
                }
            }
            Action::Stamp { store: 0 } => circuit.stamp_sources(0, &[c64::zero()]),
            Action::Stamp { store: 1 } => circuit.stamp_sources(1, &[z(5.0, 0.0)]),
            Action::Solve => {
                let le = circuit.equations();
                assert_eq!(
                    le.values(),
                    &vec![z(1.0, 0.0), z(0.0, 0.0), z(0.0, 0.0), z(1.0, 0.0)]
                );
                assert_eq!(le.rhs(), &vec![z(0.0, 0.0), z(5.0, 0.0)]);
                let x = le.rhs().clone();
                circuit.equations_mut().set_solution(x);
            }
            Action::PostStamp { .. } => {}
            Action::Stamp { .. } => unreachable!(),
        }
    }
    let le = circuit.equations();
    assert_eq!(le.get_voltage(a), z(5.0, 0.0));
    assert_eq!(le.get_voltage(gnd), z(0.0, 0.0));
    let v = f64::from_bits(le.get_voltage(a).re) - f64::from_bits(le.get_voltage(gnd).re);
    assert!((v / 500.0 - 0.010).abs() < 1e-3);
    assert!((v / 1000.0 - 0.005).abs() < 1e-3);
}

#[test]
fn ground_pins_its_node_to_zero() {
    let mut le = LinearEquations::from_coordinates(vec![(0, 0), (0, 1), (1, 0), (1, 1)]);
    le.set_a(1, 0, z(3.0, 0.0)).unwrap();
    le.set_a(1, 1, z(4.0, 0.0)).unwrap();
    le.set_b(1, z(7.0, 0.0));
    assert_eq!(Ground.stamp(&mut le, [1]), Ok(()));
    assert_eq!(
        le.values(),
        &vec![c64::zero(), c64::zero(), c64::zero(), c64::one()]
    );
    assert_eq!(le.rhs(), &vec![c64::zero(), c64::zero()]);
    assert_eq!(Ground.kind(), ComponentKind::Ground);
    let mut small = LinearEquations::from_coordinates(vec![(0, 1)]);
    assert_eq!(
        Ground.stamp(&mut small, [0]),
        Err(CircuitError::UnreservedCoordinate { row: 0, col: 0 })
    );
}
