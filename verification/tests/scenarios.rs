//! Whole circuits, ticked. The library lays out the system, orders the
//! stamps and pins the sources; the float arithmetic of the passive stamps
//! and of the solver is done here, on the library's words.

use electrocute::store::ComponentType;
use electrocute::{c64, Action, Circuit, ComponentKind, LinearEquations, Locator};

#[derive(Clone, Copy, Debug, PartialEq)]
struct Z {
    re: f64,
    im: f64,
}

fn z(re: f64, im: f64) -> Z {
    Z { re, im }
}

fn word(v: Z) -> c64 {
    c64::new(v.re.to_bits(), v.im.to_bits())
}

fn float(w: c64) -> Z {
    z(f64::from_bits(w.re), f64::from_bits(w.im))
}

fn add(a: Z, b: Z) -> Z {
    z(a.re + b.re, a.im + b.im)
}

fn sub(a: Z, b: Z) -> Z {
    z(a.re - b.re, a.im - b.im)
}

fn mul(a: Z, b: Z) -> Z {
    z(a.re * b.re - a.im * b.im, a.re * b.im + a.im * b.re)
}

fn div(a: Z, b: Z) -> Z {
    let denom = b.re * b.re + b.im * b.im;
    z(
        (a.re * b.re + a.im * b.im) / denom,
        (a.im * b.re - a.re * b.im) / denom,
    )
}

fn conj(a: Z) -> Z {
    float(word(a).conj())
}

fn neg(a: Z) -> Z {
    float(word(a).neg())
}

fn norm(a: Z) -> f64 {
    (a.re * a.re + a.im * a.im).sqrt()
}

fn sparse_matmul(values: &[Z], columns: &[u32], pointers: &[usize], vector: &[Z]) -> Vec<Z> {
    let rows = pointers.len() - 1;
    let mut results = vec![z(0., 0.); rows];
    for i in 0..rows {
        for k in pointers[i]..pointers[i + 1] {
            results[i] = add(results[i], mul(values[k], vector[columns[k] as usize]));
        }
    }
    results
}

fn vec_sub(a: &[Z], b: &[Z]) -> Vec<Z> {
    a.iter().zip(b).map(|(&a, &b)| sub(a, b)).collect()
}

fn vec_add(a: &[Z], b: &[Z]) -> Vec<Z> {
    a.iter().zip(b).map(|(&a, &b)| add(a, b)).collect()
}

fn vec_dot(a: &[Z], b: &[Z]) -> Z {
    let mut acc = z(0., 0.);
    for (&a, &b) in a.iter().zip(b) {
        acc = add(acc, mul(a, conj(b)));
    }
    acc
}

fn vec_mul(a: &[Z], k: Z) -> Vec<Z> {
    a.iter().map(|&a| mul(k, a)).collect()
}

fn vec_norm(a: &[Z]) -> f64 {
    a.iter().map(|a| a.re * a.re + a.im * a.im).sum::<f64>().sqrt()
}

fn bicgstab(
    values: &[Z],
    columns: &[u32],
    pointers: &[usize],
    mut x: Vec<Z>,
    b: &[Z],
    max_iters: u32,
    tol: f64,
) -> (Vec<Z>, u32) {
    let mut r = vec_sub(b, &sparse_matmul(values, columns, pointers, &x));
    let r_hat = r.clone();
    let mut p = r.clone();
    let mut rho_old = vec_dot(&r_hat, &r);
    let small = 1e-30f64;
    let mut iterations = 0;
    for _ in 0..max_iters {
        iterations += 1;
        let a_p = sparse_matmul(values, columns, pointers, &p);
        let denom_alpha = vec_dot(&r_hat, &a_p);
        if norm(denom_alpha) < small {
            break;
        }
        let alpha = div(rho_old, denom_alpha);
        let s = vec_sub(&r, &vec_mul(&a_p, alpha));
        if vec_norm(&s) < tol {
            x = vec_add(&x, &vec_mul(&p, alpha));
            break;
        }
        let a_s = sparse_matmul(values, columns, pointers, &s);
        let denom_omega = vec_dot(&a_s, &a_s);
        if norm(denom_omega) < small {
            break;
        }
        let omega = div(vec_dot(&a_s, &s), denom_omega);
        x = vec_add(&x, &vec_mul(&p, alpha));
        x = vec_add(&x, &vec_mul(&s, omega));
        let r_new = vec_sub(&s, &vec_mul(&a_s, omega));
        let rho_new = vec_dot(&r_hat, &r_new);
        if norm(rho_new) < small {
            break;
        }
        if omega == z(0.0, 0.0) {
            break;
        }
        let beta = mul(div(rho_new, rho_old), div(alpha, omega));
        let p_minus = vec_sub(&p, &vec_mul(&a_p, omega));
        p = vec_add(&r_new, &vec_mul(&p_minus, beta));
        r = r_new;
        rho_old = rho_new;
    }
    (x, iterations)
}

fn floats(words: &[c64]) -> Vec<Z> {
    words.iter().map(|&w| float(w)).collect()
}

fn solve(le: &mut LinearEquations) -> u32 {
    let (x, iterations) = bicgstab(
        &floats(le.values()),
        le.column_indices(),
        le.row_pointers(),
        floats(le.solution()),
        &floats(le.rhs()),
        100,
        1e-6,
    );
    le.set_solution(x.into_iter().map(word).collect());
    iterations
}

fn residual(le: &LinearEquations) -> f64 {
    let ax = sparse_matmul(
        &floats(le.values()),
        le.column_indices(),
        le.row_pointers(),
        &floats(le.solution()),
    );
    vec_norm(&vec_sub(&floats(le.rhs()), &ax))
}

fn add_a(le: &mut LinearEquations, i: u32, j: u32, value: Z) {
    let old = float(le.get_a(i, j).unwrap());
    le.set_a(i, j, word(add(old, value))).unwrap();
}

fn add_b(le: &mut LinearEquations, i: u32, value: Z) {
    let old = float(le.get_current(i));
    le.set_b(i, word(add(old, value)));
}

fn voltage_across(le: &LinearEquations, from: u32, to: u32) -> Z {
    sub(float(le.get_voltage(from)), float(le.get_voltage(to)))
}

fn block(le: &mut LinearEquations, n1: u32, n2: u32, y: Z) {
    add_a(le, n1, n1, y);
    add_a(le, n1, n2, neg(y));
    add_a(le, n2, n1, neg(y));
    add_a(le, n2, n2, y);
}

fn block_at(le: &mut LinearEquations, positions: &[usize], y: Z) {
    for (&k, v) in positions.iter().zip([y, neg(y), neg(y), y]) {
        let old = float(le.values()[k]);
        le.set_value(k, word(add(old, v)));
    }
}

fn number(record: &[u8], at: usize) -> f64 {
    f64::from_bits(u64::from_ne_bytes(
        record[8 * at..8 * at + 8].try_into().unwrap(),
    ))
}

fn record(numbers: &[f64]) -> Vec<u8> {
    numbers
        .iter()
        .flat_map(|v| v.to_bits().to_ne_bytes())
        .collect()
}

const RESISTOR: u64 = 0;
const CAPACITOR: u64 = 1;
const INDUCTOR: u64 = 2;
const DC: u64 = 3;
const AC: u64 = 4;
const GROUND: u64 = 5;

struct Bench {
    circuit: Circuit,
}

impl Bench {
    fn new() -> Self {
        Bench {
            circuit: Circuit::new(),
        }
    }

    fn place(&mut self, kind: ComponentKind, numbers: &[f64], name: &str, nodes: &[u32]) -> Locator {
        let size = 8 * numbers.len();
        let description = ComponentType::of_kind(kind, size, if size == 0 { 1 } else { 8 });
        self.circuit
            .put_raw(description, &record(numbers), Some(name.to_string()), nodes)
            .unwrap()
    }

    fn resistor(&mut self, name: &str, r: f64, n1: u32, n2: u32) -> Locator {
        self.place(ComponentKind::Resistor, &[r], name, &[n1, n2])
    }

    fn capacitor(&mut self, name: &str, c: f64, n1: u32, n2: u32) -> Locator {
        self.place(ComponentKind::Capacitor, &[c, 0., 0.], name, &[n1, n2])
    }

    fn inductor(&mut self, name: &str, l: f64, n1: u32, n2: u32) -> Locator {
        self.place(ComponentKind::Inductor, &[l, 0., 0.], name, &[n1, n2])
    }

    fn dc(&mut self, name: &str, v: f64, n: u32) -> Locator {
        self.place(ComponentKind::DC1Source, &[v], name, &[n])
    }

    fn ac(&mut self, name: &str, a: f64, f: f64, phi: f64, n: u32) -> Locator {
        self.place(ComponentKind::AC1Source, &[a, f, phi, 0.], name, &[n])
    }

    fn ground(&mut self, name: &str, n: u32) -> Locator {
        self.place(ComponentKind::Ground, &[], name, &[n])
    }

    fn stamp(&mut self, s: usize, dt: f64) {
        let key = self.circuit.store(s).component_type().type_id;
        let count = self.circuit.store(s).len();
        if key == DC || key == AC || key == GROUND {
            let values: Vec<c64> = (0..count)
                .map(|k| {
                    let r = self.circuit.store(s).record(k);
                    match key {
                        DC => word(z(number(r, 0), 0.)),
                        AC => {
                            let angle = 2.0 * std::f64::consts::PI * number(r, 1) * number(r, 3)
                                + number(r, 2);
                            word(z(number(r, 0) * angle.cos(), number(r, 0) * angle.sin()))
                        }
                        _ => c64::zero(),
                    }
                })
                .collect();
            self.circuit.stamp_sources(s, &values);
            return;
        }
        for k in 0..count {
            let r = self.circuit.store(s).record(k).to_vec();
            let nodes = self.circuit.store(s).terminals_of(k).to_vec();
            let (n1, n2) = (nodes[0], nodes[1]);
            let positions = self.circuit.positions(Locator { store: s, index: k });
            let le = self.circuit.equations_mut();
            match key {
                RESISTOR => block_at(le, &positions, z(1. / number(&r, 0), 0.)),
                CAPACITOR => {
                    let g_eq = z(number(&r, 0) / dt, 0.);
                    let i_hist = mul(g_eq, z(number(&r, 1), number(&r, 2)));
                    block_at(le, &positions, g_eq);
                    add_b(le, n1, i_hist);
                    add_b(le, n2, neg(i_hist));
                }
                INDUCTOR => {
                    let g_eq = z(dt / number(&r, 0), 0.);
                    let i_hist = z(number(&r, 1), number(&r, 2));
                    block(le, n1, n2, g_eq);
                    add_b(le, n1, neg(i_hist));
                    add_b(le, n2, i_hist);
                }
                _ => unreachable!(),
            }
        }
    }

    fn post_stamp(&mut self, s: usize, dt: f64) {
        let key = self.circuit.store(s).component_type().type_id;
        let count = self.circuit.store(s).len();
        for k in 0..count {
            let r = self.circuit.store(s).record(k).to_vec();
            let nodes = self.circuit.store(s).terminals_of(k).to_vec();
            let next = match key {
                CAPACITOR => {
                    let v = voltage_across(self.circuit.equations(), nodes[0], nodes[1]);
                    record(&[number(&r, 0), v.re, v.im])
                }
                INDUCTOR => {
                    let v = voltage_across(self.circuit.equations(), nodes[0], nodes[1]);
                    let l = number(&r, 0);
                    record(&[
                        l,
                        number(&r, 1) + v.re / l * dt,
                        number(&r, 2) + v.im / l * dt,
                    ])
                }
                AC => record(&[number(&r, 0), number(&r, 1), number(&r, 2), number(&r, 3) + dt]),
                _ => continue,
            };
            self.circuit
                .write_record(Locator { store: s, index: k }, &next);
        }
    }

    fn step(&mut self, dt: f64) {
        for action in self.circuit.schedule() {
            match action {
                Action::Reset => self.circuit.equations_mut().reset(),
                Action::Stamp { store } => self.stamp(store, dt),
                Action::Solve => {
                    solve(self.circuit.equations_mut());
                }
                Action::PostStamp { store } => self.post_stamp(store, dt),
            }
        }
    }

    fn x(&self, n: u32) -> Z {
        float(self.circuit.equations().get_voltage(n))
    }

    fn resistor_current(&self, name: &str) -> Z {
        let at = self.circuit.locate(name).unwrap();
        let store = self.circuit.store(at.store);
        let r = number(store.record(at.index), 0);
        let nodes = store.terminals_of(at.index);
        div(
            voltage_across(self.circuit.equations(), nodes[0], nodes[1]),
            z(r, 0.),
        )
    }

    fn state(&self, at: Locator, index: usize) -> f64 {
        number(self.circuit.store(at.store).record(at.index), index)
    }
}

const DT: f64 = 0.01;
const STEPS: usize = 1000;
const TOLERANCE: f64 = 1e-3;

#[test]
fn test_sparse_matrix_multiplication() {
    let mut le = LinearEquations::from_coordinates(vec![(0, 1), (1, 0), (1, 2), (2, 2)]);
    for ((i, j), v) in [(0, 1), (1, 0), (1, 2), (2, 2)].into_iter().zip([5, 1, 2, 3]) {
        le.set_a(i, j, word(z(v as f64, 0.))).unwrap();
    }
    assert_eq!(le.column_indices(), &vec![1, 0, 2, 2]);
    assert_eq!(le.row_pointers(), &vec![0, 1, 3, 4]);

    let vector: Vec<Z> = [2, 4, 3].into_iter().map(|x| z(x as f64, 0.)).collect();

    let result = sparse_matmul(
        &floats(le.values()),
        le.column_indices(),
        le.row_pointers(),
        &vector,
    );

    assert!((result[0].re - 20.).abs() < f64::EPSILON);
    assert!((result[1].re - 8.).abs() < f64::EPSILON);
    assert!((result[2].re - 9.).abs() < f64::EPSILON);

    assert!((result[0].im).abs() < f64::EPSILON);
    assert!((result[1].im).abs() < f64::EPSILON);
    assert!((result[2].im).abs() < f64::EPSILON);
}

#[test]
fn test_solve_real_numbers() {
    let coordinates = vec![(0, 0), (0, 1), (1, 0), (1, 1), (1, 2), (2, 1), (2, 2)];
    let values = [4.0, 1.0, 1.0, 3.0, 1.0, 1.0, 2.0];
    let mut le = LinearEquations::from_coordinates(coordinates.clone());
    for (&(i, j), v) in coordinates.iter().zip(values) {
        le.set_a(i, j, word(z(v, 0.0))).unwrap();
    }
    assert_eq!(le.column_indices(), &vec![0, 1, 0, 1, 2, 1, 2]);
    assert_eq!(le.row_pointers(), &vec![0, 2, 5, 7]);
    let b = vec![z(1.0, 0.0), z(2.0, 0.0), z(3.0, 0.0)];
    let x0 = vec![z(0.0, 0.0); 3];

    let (x, _) = bicgstab(
        &floats(le.values()),
        le.column_indices(),
        le.row_pointers(),
        x0,
        &b,
        1000,
        1e-8,
    );

    let ax = sparse_matmul(&floats(le.values()), le.column_indices(), le.row_pointers(), &x);
    let residual: Vec<Z> = b.iter().zip(ax.iter()).map(|(&bi, &axi)| sub(bi, axi)).collect();

    assert!(residual.iter().copied().map(norm).sum::<f64>() / (residual.len() as f64) < 1e-8);
}

#[test]
fn test_solve() {
    let mut le = LinearEquations::from_coordinates(vec![(0, 0), (1, 1)]);
    add_a(&mut le, 0, 0, z(2.0, 0.0));
    add_a(&mut le, 1, 1, z(3.0, 0.0));
    le.set_b(0, word(z(4.0, 0.0)));
    le.set_b(1, word(z(9.0, 0.0)));
    solve(&mut le);
    assert!(float(le.get_voltage(0)).re - 2.0 < f64::EPSILON);
    assert!(float(le.get_voltage(1)).re - 3.0 < f64::EPSILON);
    assert!((float(le.get_voltage(0)).re - 2.0).abs() < 1e-6);
    assert!((float(le.get_voltage(1)).re - 3.0).abs() < 1e-6);
}

#[test]
fn zero_right_hand_side_keeps_a_zero_start() {
    let mut le = LinearEquations::from_coordinates(vec![(0, 0), (0, 1), (1, 1), (2, 0)]);
    le.set_a(0, 0, word(z(2.0, 1.0))).unwrap();
    le.set_a(1, 1, word(z(3.0, 0.0))).unwrap();
    le.set_b(2, word(z(1.0, 0.0)));
    le.reset();
    solve(&mut le);
    assert_eq!(le.solution(), &vec![c64::zero(); 3]);
    le.set_a(0, 0, word(z(2.0, 1.0))).unwrap();
    le.set_a(1, 1, word(z(3.0, 0.0))).unwrap();
    le.set_a(2, 0, word(z(1.0, 0.0))).unwrap();
    solve(&mut le);
    assert_eq!(le.solution(), &vec![c64::zero(); 3]);
}

#[test]
fn restamping_a_cleared_row_gives_the_same_words() {
    let mut le = LinearEquations::from_coordinates(vec![(0, 0), (0, 1), (1, 0), (1, 1)]);
    let stamps = [z(1. / 3., 0.), z(0.1, 0.7), z(1e-9, -2.5)];
    for y in stamps {
        block(&mut le, 0, 1, y);
    }
    let first = le.values().clone();
    le.clear_row(0);
    for y in stamps {
        add_a(&mut le, 0, 0, y);
        add_a(&mut le, 0, 1, neg(y));
    }
    assert_eq!(le.values(), &first);
}

#[test]
fn resistor_network_obeys_kirchhoff() {
    let mut bench = Bench::new();
    let (g, a, m, n) = (0, 1, 2, 3);
    bench.ground("gnd", g);
    bench.dc("V1", 5.0, a);
    bench.resistor("R1", 100.0, a, m);
    bench.resistor("R2", 220.0, m, g);
    bench.resistor("R3", 330.0, m, n);
    bench.resistor("R4", 470.0, n, g);
    bench.resistor("R5", 50.0, a, n);
    for _ in 0..20 {
        bench.step(DT);
    }
    let le = bench.circuit.equations();
    for (name, r, n1, n2) in [
        ("R1", 100.0, a, m),
        ("R2", 220.0, m, g),
        ("R3", 330.0, m, n),
        ("R4", 470.0, n, g),
        ("R5", 50.0, a, n),
    ] {
        let measured = voltage_across(le, n1, n2).re / r;
        assert!((measured - bench.resistor_current(name).re).abs() < 1e-6);
    }
    let i = |name: &str| bench.resistor_current(name).re;
    assert!((i("R1") - i("R2") - i("R3")).abs() < 1e-4);
    assert!((i("R3") + i("R5") - i("R4")).abs() < 1e-4);
    assert!((bench.x(a).re - 5.0).abs() < TOLERANCE);
    assert!(bench.x(g).re.abs() < TOLERANCE);
}

#[test]
fn two_parallel_resistors_with_a_dc_source() {
    let mut bench = Bench::new();
    let (gnd, a) = (0, 1);
    bench.ground("gnd", gnd);
    bench.dc("V1", 5.0, a);
    bench.resistor("R1", 500.0, a, gnd);
    bench.resistor("R2", 1000.0, a, gnd);
    bench.step(DT);
    assert_eq!(bench.x(a), z(5.0, 0.0));
    assert_eq!(bench.x(gnd), z(0.0, 0.0));
    assert!((bench.resistor_current("R1").re - 0.010).abs() < TOLERANCE);
    assert!((bench.resistor_current("R2").re - 0.005).abs() < TOLERANCE);
    assert!((bench.resistor_current("R1").re - 0.010).abs() < 1e-12);
    assert!((bench.resistor_current("R2").re - 0.005).abs() < 1e-12);
    for _ in 1..STEPS {
        bench.step(DT);
    }
    assert_eq!(bench.x(a), z(5.0, 0.0));
    assert_eq!(bench.x(gnd), z(0.0, 0.0));
}

#[test]
fn series_divider() {
    let mut bench = Bench::new();
    let (zero, a, b) = (0, 1, 2);
    bench.dc("V1", 5.0, b);
    bench.resistor("R1", 5.0, a, b);
    bench.resistor("R2", 10.0, zero, a);
    bench.ground("gnd", zero);
    for _ in 0..STEPS {
        bench.step(DT);
    }
    assert!((bench.x(a).re - 10.0 / 15.0 * 5.0).abs() < TOLERANCE);
    assert!((bench.x(a).re - 3.333).abs() < TOLERANCE);
    assert!((bench.x(b).re - 5.0).abs() < TOLERANCE);
    assert!(bench.x(a).im.abs() < TOLERANCE);
}

#[test]
fn rc_charging_transient() {
    let mut bench = Bench::new();
    bench.ground("gnd", 0);
    bench.dc("V1", 1.0, 1);
    bench.resistor("R1", 1e3, 1, 2);
    let c = bench.capacitor("C1", 1e-6, 2, 0);
    assert_eq!(bench.state(c, 1), 0.0);
    let rc = 1e3 * 1e-6;
    let mut euler = 0.0;
    for n in 1..=STEPS {
        bench.step(DT);
        euler = (euler + DT / rc) / (1.0 + DT / rc);
        assert!((bench.x(2).re - euler).abs() < 1e-2);
        assert!((bench.state(c, 1) - bench.x(2).re).abs() < 1e-12);
        if n >= 2 {
            let expected = 1.0 - (-(n as f64) * DT / rc).exp();
            assert!((bench.x(2).re - expected).abs() < 0.05 * expected);
        }
    }
}

#[test]
fn ac_source_steady_state() {
    let mut bench = Bench::new();
    bench.ground("gnd", 0);
    let source = bench.ac("V1", 1.0, 50.0, 0.0, 1);
    bench.resistor("R1", 1e3, 1, 0);
    for _ in 0..10000 {
        bench.step(DT);
    }
    assert!((bench.state(source, 3) - 100.0).abs() < 1e-6);
    bench.step(DT);
    assert!((bench.x(1).re - 1.0).abs() < TOLERANCE);
    assert!(bench.x(1).im.abs() < TOLERANCE);
    bench.step(DT);
    assert!((bench.x(1).re + 1.0).abs() < TOLERANCE);
}

#[test]
fn inductor_kick() {
    let mut bench = Bench::new();
    bench.ground("gnd", 0);
    bench.dc("V1", 1.0, 1);
    let l = bench.inductor("L1", 1e-3, 1, 0);
    for n in 1..=8 {
        bench.step(DT);
        let expected = 1000.0 * n as f64 * DT;
        assert!((bench.state(l, 1) - expected).abs() < TOLERANCE * expected);
    }
}

#[test]
fn sparse_solver_correctness() {
    let n: u32 = 500;
    let mut seed: u64 = 42;
    let mut next = move || {
        seed = seed
            .wrapping_mul(6364136223846793005)
            .wrapping_add(1442695040888963407);
        ((seed >> 11) as f64) / ((1u64 << 53) as f64)
    };
    let mut coordinates = Vec::new();
    for i in 0..n {
        coordinates.push((i, i));
        for _ in 0..5 {
            let mut j = (next() * n as f64) as u32 % n;
            if j == i {
                j = (j + 1) % n;
            }
            coordinates.push((i, j));
        }
    }
    let mut le = LinearEquations::from_coordinates(coordinates);
    assert_eq!(le.dimensions(), (500, 500));
    for i in 0..n {
        let start = le.row_pointers()[i as usize];
        let end = le.row_pointers()[i as usize + 1];
        let mut row_sum = 0.0;
        for k in start..end {
            let j = le.column_indices()[k];
            if j != i {
                let v = z(2.0 * next() - 1.0, 2.0 * next() - 1.0);
                le.set_a(i, j, word(v)).unwrap();
                row_sum += norm(v);
            }
        }
        le.set_a(i, i, word(z(row_sum + 0.5 + 1.5 * next(), next() - 0.5)))
            .unwrap();
    }
    for i in 0..n {
        le.set_b(i, word(z(2.0 * next() - 1.0, 2.0 * next() - 1.0)));
    }
    let iterations = solve(&mut le);
    assert!(iterations <= 100);
    assert!(residual(&le) < 1e-6);
}
