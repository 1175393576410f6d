use electrocute::printing::is_finite;
use electrocute::{
    cell_is_plain, continuous_segments, grid_is_plain, print_table, render, row_is_plain,
    table_cells,
};

fn s(text: &str) -> String {
    text.to_string()
}

#[test]
fn cells_of_the_result_table() {
    let headers = vec![s("V"), s("I")];
    let rows = vec![
        (Some(s("R1")), vec![(s("I"), s("10mA")), (s("V"), s("5V"))]),
        (None, vec![(s("V"), s("5V"))]),
        (Some(s("gnd")), vec![]),
        (Some(s("R2")), vec![(s("P"), s("1W")), (s("I"), s("a")), (s("I"), s("b"))]),
    ];
    assert_eq!(
        table_cells(&headers, &rows),
        vec![
            vec![s("#"), s("V"), s("I")],
            vec![s("R1"), s("5V"), s("10mA")],
            vec![s(""), s("5V"), s("")],
            vec![s("R2"), s(""), s("a")],
        ]
    );
    assert_eq!(table_cells(&vec![], &vec![]), vec![vec![s("#")]]);
}

#[test]
fn table_is_laid_out_in_columns() {
    let headers = vec![s("V"), s("I")];
    let rows = vec![
        (Some(s("R1")), vec![(s("I"), s("10mA")), (s("V"), s("5V"))]),
        (Some(s("gnd")), vec![]),
    ];
    let text = print_table(headers, rows);
    assert_eq!(
        text,
        Some(
            "+----+----+------+\n| #  | V  | I    |\n+----+----+------+\n| R1 | 5V | 10mA |\n+----+----+------+\n"
                .to_string()
        )
    );
    assert_eq!(
        render(&vec![vec![s("a")], vec![s("bb"), s("c")]]),
        "+----+---+\n| a  |   |\n+----+---+\n| bb | c |\n+----+---+\n"
    );
    assert_ne!(render(&vec![vec![s("a")]]), "a");
}

fn p(x: f64, y: f64) -> (u64, u64) {
    (x.to_bits(), y.to_bits())
}

#[test]
fn finite_words() {
    for v in [
        0.0,
        -0.0,
        1.0,
        -1.5e300,
        f64::MAX,
        f64::MIN,
        f64::MIN_POSITIVE,
        5e-324,
        f64::INFINITY,
        f64::NEG_INFINITY,
        f64::NAN,
        -f64::NAN,
    ] {
        assert_eq!(is_finite(v.to_bits()), v.is_finite(), "{}", v);
    }
    assert!(!is_finite(0x7ff0_0000_0000_0001));
    assert!(!is_finite(0xfff8_0000_0000_0000));
    assert!(is_finite(0x7fef_ffff_ffff_ffff));
}

#[test]
fn curves_are_cut_at_points_that_are_not_finite() {
    let nan = f64::NAN;
    let inf = f64::INFINITY;
    assert_eq!(
        continuous_segments(&[
            p(0., 1.),
            p(1., 2.),
            p(2., nan),
            p(3., 4.),
            p(inf, 5.),
            p(nan, nan),
            p(6., 7.),
            p(7., 8.),
            p(8., -inf),
        ]),
        vec![
            vec![p(0., 1.), p(1., 2.)],
            vec![p(3., 4.)],
            vec![p(6., 7.), p(7., 8.)]
        ]
    );
    assert_eq!(continuous_segments(&[]), Vec::<Vec<(u64, u64)>>::new());
    assert_eq!(
        continuous_segments(&[p(nan, 0.), p(0., inf)]),
        Vec::<Vec<(u64, u64)>>::new()
    );
    assert_eq!(
        continuous_segments(&[p(1., 1.), p(2., 2.)]),
        vec![vec![p(1., 1.), p(2., 2.)]]
    );
    assert_eq!(
        continuous_segments(&[p(nan, 1.), p(2., 2.)]),
        vec![vec![p(2., 2.)]]
    );
}

#[test]
fn texts_that_a_cell_can_hold() {
    assert!(cell_is_plain(""));
    assert!(cell_is_plain("R1"));
    assert!(cell_is_plain("5.000V \u{2220}0.0\u{b0}"));
    assert!(cell_is_plain("a\tb [m"));
    assert!(cell_is_plain("\u{644}\u{627}\u{644}\u{627}"));
    assert!(!cell_is_plain("a\n"));
    assert!(!cell_is_plain("\na"));
    assert!(!cell_is_plain("a\rb"));
    assert!(!cell_is_plain("a\r\nb"));
    assert!(!cell_is_plain("\u{1b}[31mred\u{1b}[0m"));
    assert!(!cell_is_plain("\u{1b}"));
    assert!(row_is_plain(&vec![]));
    assert!(row_is_plain(&vec![s("a"), s(""), s("b c")]));
    assert!(!row_is_plain(&vec![s("a"), s("b\n"), s("c")]));
    assert!(grid_is_plain(&vec![]));
    assert!(grid_is_plain(&vec![vec![s("a")], vec![], vec![s("b"), s("c")]]));
    assert!(!grid_is_plain(&vec![vec![s("a")], vec![s("b"), s("\u{1b}c")]]));
}

#[test]
fn a_table_with_a_cell_that_cannot_be_held_is_not_printed() {
    let escape = "\u{1b}[\u{644}\u{627}\u{644}\u{627}";
    let headers = vec![s("V")];
    assert_eq!(
        print_table(
            headers.clone(),
            vec![(Some(s(escape)), vec![(s("V"), s("5V"))])]
        ),
        None
    );
    assert_eq!(
        print_table(
            headers.clone(),
            vec![(Some(s("R1")), vec![(s("V"), s("5V\n"))])]
        ),
        None
    );
    assert_eq!(
        print_table(vec![s("V\r")], vec![(Some(s("R1")), vec![(s("V"), s("5V"))])]),
        None
    );
    assert_eq!(
        print_table(
            headers.clone(),
            vec![
                (Some(s("a\nb")), vec![]),
                (Some(s("R1")), vec![(s("I"), s("x\ny")), (s("V"), s("5V"))])
            ]
        ),
        Some("+----+----+\n| #  | V  |\n+----+----+\n| R1 | 5V |\n+----+----+\n".to_string())
    );
    assert_eq!(
        print_table(
            headers,
            vec![(Some(s("\u{644}\u{627}")), vec![(s("V"), s("5V"))])]
        )
        .map(|t| t.lines().count()),
        Some(5)
    );
}
