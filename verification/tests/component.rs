use electrocute::{ComponentError, ComponentKind, Expression, MissingRequiredParameter};

fn given(keys: &[&str]) -> Vec<(String, Expression)> {
    keys.iter()
        .map(|k| (k.to_string(), Expression::Real("1".to_string())))
        .collect()
}

fn missing(name: &str) -> ComponentError {
    ComponentError::MissingRequiredParameter {
        parameter: name.to_string(),
    }
}

fn unused(name: &str) -> ComponentError {
    ComponentError::UnusedSuppliedParameter {
        parameter: name.to_string(),
    }
}

#[test]
fn required_parameters_of_each_kind() {
    assert_eq!(ComponentKind::Resistor.required_parameters(), vec!["R"]);
    assert_eq!(ComponentKind::Capacitor.required_parameters(), vec!["C"]);
    assert_eq!(ComponentKind::Inductor.required_parameters(), vec!["L"]);
    assert_eq!(ComponentKind::DC1Source.required_parameters(), vec!["V"]);
    assert_eq!(
        ComponentKind::AC1Source.required_parameters(),
        vec!["A", "f", "phi"]
    );
    assert_eq!(
        ComponentKind::Ground.required_parameters(),
        Vec::<&str>::new()
    );
}

#[test]
fn published_quantities_of_each_kind() {
    assert_eq!(ComponentKind::Resistor.parameters(), vec!["R", "V", "I", "P"]);
    assert_eq!(ComponentKind::Capacitor.parameters(), vec!["C", "V", "I", "P"]);
    assert_eq!(ComponentKind::Inductor.parameters(), vec!["L", "V", "I", "P"]);
    assert_eq!(ComponentKind::DC1Source.parameters(), vec!["V"]);
    assert_eq!(
        ComponentKind::AC1Source.parameters(),
        vec!["V", "f", "phi", "t"]
    );
    assert_eq!(ComponentKind::Ground.parameters(), Vec::<&str>::new());
    assert!(ComponentKind::Resistor.publishes("I"));
    assert!(ComponentKind::AC1Source.publishes("phi"));
    assert!(!ComponentKind::Resistor.publishes("C"));
    assert!(!ComponentKind::DC1Source.publishes("I"));
    assert!(!ComponentKind::Ground.publishes("V"));
    assert!(!ComponentKind::Resistor.publishes(""));
    assert!(!ComponentKind::Resistor.publishes("r"));
}

#[test]
fn parameters_that_are_missing_or_unused() {
    assert_eq!(ComponentKind::Resistor.check_parameters(&given(&["R"])), vec![]);
    assert_eq!(
        ComponentKind::Resistor.check_parameters(&given(&[])),
        vec![missing("R")]
    );
    assert_eq!(
        ComponentKind::Resistor.check_parameters(&given(&["C", "R", "x", "C"])),
        vec![unused("C"), unused("x"), unused("C")]
    );
    assert_eq!(
        ComponentKind::AC1Source.check_parameters(&given(&["phi", "V"])),
        vec![missing("A"), missing("f"), unused("V")]
    );
    assert_eq!(
        ComponentKind::AC1Source.check_parameters(&given(&["f", "A", "phi", "A"])),
        vec![]
    );
    assert_eq!(ComponentKind::Ground.check_parameters(&given(&[])), vec![]);
    assert_eq!(
        ComponentKind::Ground.check_parameters(&given(&["V"])),
        vec![unused("V")]
    );
    assert_eq!(
        ComponentKind::AC1Source.missing_parameters(&given(&["f"])),
        vec![
            MissingRequiredParameter {
                parameter: "A".to_string()
            },
            MissingRequiredParameter {
                parameter: "phi".to_string()
            }
        ]
    );
    assert_eq!(
        ComponentKind::Capacitor.missing_parameters(&given(&["C", "R"])),
        vec![]
    );
}
