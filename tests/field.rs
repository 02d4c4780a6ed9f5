use fdtd_cosim::coupling::{advance_fields, generate_efield, readback_efield};
use fdtd_cosim::node_map::{NodeMap, PrimitiveDiagram, RichPrimitiveDiagram};
use fdtd_cosim::sim::{cell_index, field_sum, half_step, zero_normal_faces, FdtdSim};
use fdtd_cosim::wiring::Wiring3D;

/// Steps `sim` once with the arithmetic of a grid with spacing `dx`, time
/// step `dt`, permeability `mu` and permittivity `eps`.
fn step(sim: &mut FdtdSim<f64>, mag: &Vec<f64>, cur: &Vec<f64>, dx: f64, dt: f64, mu: f64, eps: f64) {
    let scale = dt / dx / (mu * eps).sqrt();
    sim.step(
        mag,
        cur,
        &|a: f64, b: f64| a + b,
        &|e: f64, j: f64| e - dt * mu * j,
        &|p: f64, q: f64, r: f64, t: f64| (p - q) - (r - t),
        &|e: f64, c: f64| e + scale * c,
        &|h: f64, c: f64| h - scale * c,
        0.0,
    );
}

fn max_abs(v: &[f64]) -> f64 {
    v.iter().fold(0.0, |m: f64, x| m.max(x.abs()))
}

#[test]
fn new_grid_is_zero() {
    let sim = FdtdSim::new(4, 0.0f64);
    assert_eq!(sim.width(), 4);
    assert_eq!(sim.e_field().len(), 4 * 4 * 4 * 3);
    assert_eq!(sim.h_field().len(), 4 * 4 * 4 * 3);
    assert!(sim.e_field().iter().all(|v| *v == 0.0));
    assert!(sim.h_field().iter().all(|v| *v == 0.0));
}

#[test]
fn cell_index_layout() {
    assert_eq!(cell_index(10, 0, 0, 0, 0), 0);
    assert_eq!(cell_index(10, 0, 0, 1, 2), 5);
    assert_eq!(cell_index(10, 4, 4, 4, 0), ((4 * 10 + 4) * 10 + 4) * 3);
    assert_eq!(cell_index(10, 9, 9, 9, 2), 10 * 10 * 10 * 3 - 1);
}

#[test]
fn zero_fields_stay_zero() {
    let mut sim = FdtdSim::new(6, 0.0f64);
    let n = sim.e_field().len();
    let zeros = vec![0.0; n];
    for _ in 0..5 {
        step(&mut sim, &zeros, &zeros, 1.0, 0.005, 100.0, 1.0);
    }
    assert!(sim.e_field().iter().all(|v| *v == 0.0));
    assert!(sim.h_field().iter().all(|v| *v == 0.0));
}

fn run_pulse(dt: f64, steps: usize) -> (f64, f64) {
    let w = 10;
    let mut sim = FdtdSim::new(w, 0.0f64);
    let n = sim.e_field().len();
    let zeros = vec![0.0; n];
    sim.set_e(cell_index(w, 5, 5, 5, 2), 1.0);
    let start = max_abs(sim.e_field());
    for _ in 0..steps {
        step(&mut sim, &zeros, &zeros, 1.0, dt, 1.0, 1.0);
    }
    (start, max_abs(sim.e_field()).max(max_abs(sim.h_field())))
}

#[test]
fn small_time_step_stays_bounded() {
    let (start, end) = run_pulse(0.1, 50);
    assert!(end.is_finite());
    assert!(end <= 10.0 * start, "field grew to {end}");
}

#[test]
fn large_time_step_diverges() {
    let (start, end) = run_pulse(5.0, 50);
    assert!(!end.is_finite() || end > 1e6 * start, "field stayed at {end}");
}

#[test]
fn half_step_applies_curl_on_interior_only() {
    let w = 4;
    let n = w * w * w * 3;
    let mut b = vec![0.0f64; n];
    // z component of b grows along y around (1, 1, 1): curl_x = dBz/dy
    b[cell_index(w, 1, 2, 1, 2)] = 3.0;
    b[cell_index(w, 1, 0, 1, 2)] = 1.0;
    let mut a = vec![0.0f64; n];
    a[cell_index(w, 0, 1, 1, 0)] = 7.0;
    half_step(
        &mut a,
        &b,
        w,
        &|p: f64, q: f64, r: f64, t: f64| (p - q) - (r - t),
        &|v: f64, c: f64| v + 0.5 * c,
    );
    assert_eq!(a[cell_index(w, 1, 1, 1, 0)], 1.0);
    assert_eq!(a[cell_index(w, 1, 1, 1, 1)], 0.0);
    assert_eq!(a[cell_index(w, 0, 1, 1, 0)], 7.0);
    assert_eq!(a[cell_index(w, 2, 1, 1, 0)], 0.0);
}

#[test]
fn walls_zero_only_normal_components() {
    let w = 3;
    let mut a = vec![1.0f64; w * w * w * 3];
    zero_normal_faces(&mut a, w, 0.0);
    assert_eq!(a[cell_index(w, 0, 1, 1, 0)], 0.0);
    assert_eq!(a[cell_index(w, 2, 1, 1, 0)], 0.0);
    assert_eq!(a[cell_index(w, 0, 1, 1, 1)], 1.0);
    assert_eq!(a[cell_index(w, 1, 0, 1, 1)], 0.0);
    assert_eq!(a[cell_index(w, 1, 1, 2, 2)], 0.0);
    assert_eq!(a[cell_index(w, 1, 1, 1, 0)], 1.0);
    assert_eq!(a[cell_index(w, 1, 1, 1, 2)], 1.0);
}

#[test]
fn field_sum_adds_pointwise() {
    let r = field_sum(&vec![1.0, 2.0, 3.0], &vec![10.0, 20.0, 30.0], &|a: f64, b: f64| a + b);
    assert_eq!(r, vec![11.0, 22.0, 33.0]);
}

struct OneWire {
    wiring: Wiring3D<f64>,
    map: NodeMap,
}

fn one_wire() -> OneWire {
    let mut wiring: Wiring3D<f64> = Wiring3D::new();
    wiring.insert(((4, 4, 4), (5, 4, 4)), 10.0);
    let mut rich: RichPrimitiveDiagram<f64> = RichPrimitiveDiagram {
        primitive: PrimitiveDiagram { num_nodes: 0, two_terminal: Vec::new() },
        ports: Vec::new(),
    };
    let map = NodeMap::new(&mut rich, &wiring, &|r: &f64| *r, &|| 0.0);
    OneWire { wiring, map }
}

#[test]
fn generate_overrides_wire_cell() {
    let w = 10;
    let OneWire { wiring, map } = one_wire();
    let mut sim = FdtdSim::new(w, 0.0f64);
    let k = cell_index(w, 4, 4, 4, 0);
    sim.set_e(k, 9.0);
    sim.set_e(k + 1, 8.0);
    let voltages = vec![1.0, 3.5];
    let ext = generate_efield(&mut sim, &map, &wiring, &voltages, &|b: f64, a: f64| b - a, 0.0);
    assert_eq!(ext[k], 2.5);
    assert_eq!(ext.iter().filter(|v| **v != 0.0).count(), 1);
    assert_eq!(sim.e_field()[k], 0.0);
    assert_eq!(sim.e_field()[k + 1], 8.0);
}

#[test]
fn readback_negates_into_wire_slot() {
    let w = 10;
    let OneWire { wiring, map } = one_wire();
    let mut field = vec![0.0f64; w * w * w * 3];
    field[cell_index(w, 4, 4, 4, 0)] = 0.75;
    let slots = vec![3];
    let r = readback_efield(&field, w, &map, &wiring, &slots, 5, &|v: f64| -v, 0.0);
    assert_eq!(r, vec![0.0, 0.0, 0.0, -0.75, 0.0]);
}

fn tick(sim: &mut FdtdSim<f64>, setup: &OneWire, voltages: &Vec<f64>, dt: f64, mu: f64) -> Vec<f64> {
    let scale = dt / 1.0 / (mu * 1.0f64).sqrt();
    advance_fields(
        sim,
        &setup.map,
        &setup.wiring,
        voltages,
        &vec![1],
        2,
        &|a: f64, b: f64| a + b,
        &|e: f64, j: f64| e - dt * mu * j,
        &|p: f64, q: f64, r: f64, t: f64| (p - q) - (r - t),
        &|e: f64, c: f64| e + scale * c,
        &|h: f64, c: f64| h - scale * c,
        &|b: f64, a: f64| b - a,
        &|v: f64| -v,
        0.0,
    )
}

#[test]
fn round_trip_reconstructs_voltage_drop() {
    let w = 10;
    let setup = one_wire();
    let mut sim = FdtdSim::new(w, 0.0f64);
    let dv = 0.25;
    let sources = tick(&mut sim, &setup, &vec![1.0, 1.0 + dv], 0.5, 2.0);
    // dt * mu == 1: the field along the wire is -dv, read back negated
    assert_eq!(sim.e_field()[cell_index(w, 4, 4, 4, 0)], -dv);
    assert_eq!(sources, vec![0.0, dv]);
}

#[test]
fn first_tick_without_prior_solution_leaves_wire_field_zero() {
    let w = 10;
    let setup = one_wire();
    let mut sim = FdtdSim::new(w, 0.0f64);
    let sources = tick(&mut sim, &setup, &vec![0.0, 0.0], 5e-3, 1.0);
    assert_eq!(sim.e_field()[cell_index(w, 4, 4, 4, 0)], 0.0);
    assert_eq!(sources, vec![0.0, 0.0]);
    // the next tick sees the previous solution's drop: 5 V over the wire
    let sources = tick(&mut sim, &setup, &vec![0.0, 5.0], 5e-3, 1.0);
    let e = sim.e_field()[cell_index(w, 4, 4, 4, 0)];
    assert!((e - (-5e-3 * 5.0)).abs() < 1e-12);
    assert!((sources[1] - 5e-3 * 5.0).abs() < 1e-12);
}

#[test]
fn grids_without_interior_points_step_safely() {
    for w in [0usize, 1, 2] {
        let mut sim = FdtdSim::new(w, 0.0f64);
        let n = sim.e_field().len();
        let ones = vec![1.0; n];
        step(&mut sim, &ones, &ones, 1.0, 0.1, 1.0, 1.0);
        assert_eq!(sim.e_field().len(), w * w * w * 3);
    }
}

#[test]
fn width_two_grid_only_drives_and_resets_walls() {
    let w = 2;
    let mut sim = FdtdSim::new(w, 0.0f64);
    let n = sim.e_field().len();
    let zeros = vec![0.0; n];
    let mut cur = vec![0.0; n];
    // two points per side: every value is normal to some wall and is reset
    cur[cell_index(w, 0, 0, 0, 1)] = 1.0;
    step(&mut sim, &zeros, &cur, 1.0, 1.0, 1.0, 1.0);
    assert!(sim.e_field().iter().all(|v| *v == 0.0));
    assert!(sim.h_field().iter().all(|v| *v == 0.0));
}
