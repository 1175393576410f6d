use electrocute::{
    parse_commands, plan_command, quantity_of, CircuitBuilder, Command, ComponentError,
    ComponentKind, ComponentLibrary, Expression, PlanError, PlanFault, Planned, Quantity,
};

fn q(digits: &str, exponent: i32) -> Quantity {
    Quantity {
        digits: digits.to_string(),
        exponent,
    }
}

fn builder(lines: &[&str]) -> CircuitBuilder {
    let library = ComponentLibrary::standard();
    let mut builder = CircuitBuilder::new();
    builder.add_commands(parse_commands(&library, lines).unwrap());
    builder
}

fn at(command: usize, fault: PlanFault) -> Result<Vec<Planned>, PlanError> {
    Err(PlanError::Command { command, fault })
}

#[test]
fn expressions_that_write_numbers() {
    let number = |d: &str| Expression::Real(d.to_string());
    let variable = |n: &str| Expression::Variable {
        name: n.to_string(),
        subscript: None,
    };
    assert_eq!(quantity_of(&number("500")), Some(q("500", 0)));
    assert_eq!(quantity_of(&number("-1.5e3")), Some(q("-1.5e3", 0)));
    assert_eq!(quantity_of(&number("1k")), None);
    assert_eq!(quantity_of(&number("")), None);
    assert_eq!(quantity_of(&variable("1k")), Some(q("1", 3)));
    assert_eq!(quantity_of(&variable("4.7\u{b5}")), Some(q("4.7", -6)));
    assert_eq!(quantity_of(&variable("12")), Some(q("12", 0)));
    assert_eq!(quantity_of(&variable("x")), None);
    assert_eq!(quantity_of(&variable("k")), None);
    assert_eq!(quantity_of(&variable("")), None);
    assert_eq!(
        quantity_of(&Expression::Variable {
            name: "1".to_string(),
            subscript: Some("k".to_string())
        }),
        None
    );
    assert_eq!(quantity_of(&Expression::Imaginary("1".to_string())), None);
    assert_eq!(
        quantity_of(&Expression::Bracketed(Box::new(number("1")))),
        None
    );
}

#[test]
fn a_netlist_is_planned() {
    let plan = builder(&[
        "ground gnd",
        "dc-source-1-terminal \"V1\" a V=5",
        "resistor \"R1\" a gnd R=4.7k",
        "ac-source-1-terminal b phi=0 A=1m f=50 A=2",
        "capacitor \"C1\" b a C=1\u{b5}",
        "inductor b gnd L=1e-3",
    ])
    .plan();
    assert_eq!(
        plan,
        Ok(vec![
            Planned {
                kind: ComponentKind::Ground,
                name: None,
                terminals: vec![0],
                values: vec![],
            },
            Planned {
                kind: ComponentKind::DC1Source,
                name: Some("V1".to_string()),
                terminals: vec![1],
                values: vec![q("5", 0)],
            },
            Planned {
                kind: ComponentKind::Resistor,
                name: Some("R1".to_string()),
                terminals: vec![1, 0],
                values: vec![q("4.7", 3)],
            },
            Planned {
                kind: ComponentKind::AC1Source,
                name: None,
                terminals: vec![2],
                values: vec![q("2", 0), q("50", 0), q("0", 0)],
            },
            Planned {
                kind: ComponentKind::Capacitor,
                name: Some("C1".to_string()),
                terminals: vec![2, 1],
                values: vec![q("1", -6)],
            },
            Planned {
                kind: ComponentKind::Inductor,
                name: None,
                terminals: vec![2, 0],
                values: vec![q("1e-3", 0)],
            },
        ])
    );
    assert_eq!(CircuitBuilder::new().plan(), Ok(vec![]));
}

#[test]
fn the_first_faulty_command_stops_the_plan() {
    assert_eq!(
        builder(&["ground g", "resistor a g", "resistor a g R=x"]).plan(),
        at(
            1,
            PlanFault::Parameters {
                errors: vec![ComponentError::MissingRequiredParameter {
                    parameter: "R".to_string()
                }]
            }
        )
    );
    assert_eq!(
        builder(&["ground g", "resistor a g R=1", "resistor a g R=x"]).plan(),
        at(
            2,
            PlanFault::NotANumber {
                parameter: "R".to_string()
            }
        )
    );
    assert_eq!(
        builder(&["ac-source-1-terminal a A=1 f=2*3 phi=x"]).plan(),
        at(
            0,
            PlanFault::NotANumber {
                parameter: "f".to_string()
            }
        )
    );
    assert_eq!(
        builder(&["ground g V=1 R=2"]).plan(),
        at(
            0,
            PlanFault::Parameters {
                errors: vec![
                    ComponentError::UnusedSuppliedParameter {
                        parameter: "V".to_string()
                    },
                    ComponentError::UnusedSuppliedParameter {
                        parameter: "R".to_string()
                    }
                ]
            }
        )
    );
}

#[test]
fn commands_made_by_hand_are_checked() {
    let command = |kind: &str, terminals: &[&str]| Command::Component {
        component: kind.to_string(),
        name: None,
        terminals: terminals.iter().map(|t| t.to_string()).collect(),
        parameters: vec![("R".to_string(), Expression::Real("1".to_string()))],
    };
    assert_eq!(
        plan_command(&command("diode", &["a", "b"]), vec![0, 1]),
        Err(PlanFault::UnknownKind)
    );
    assert_eq!(
        plan_command(&command("resistor", &["a"]), vec![0]),
        Err(PlanFault::TerminalCount {
            expected: 2,
            found: 1
        })
    );
    assert_eq!(
        plan_command(&command("resistor", &["a", "b"]), vec![7, 9]),
        Ok(Planned {
            kind: ComponentKind::Resistor,
            name: None,
            terminals: vec![7, 9],
            values: vec![q("1", 0)],
        })
    );
    let mut builder = CircuitBuilder::new();
    builder.add_commands(vec![command("resistor", &["a", "b"]), command("diode", &["a"])]);
    assert_eq!(builder.plan(), at(1, PlanFault::UnknownKind));
}
