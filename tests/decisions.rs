use fdtd_cosim::controls::{plan_tick, SimulationControls, TickPlan};
use fdtd_cosim::view::{Pane, StreamersMode};

#[test]
fn paused_controls_do_not_step() {
    let mut c = SimulationControls { dt: 5e-3, paused: true, single_step: false };
    assert!(!c.is_step_this_frame());
    assert!(!c.do_step());
}

#[test]
fn single_step_is_used_up() {
    let mut c = SimulationControls { dt: 5e-3, paused: true, single_step: true };
    assert!(c.do_step());
    assert!(!c.single_step);
    assert!(!c.do_step());
    assert_eq!(c.dt, 5e-3);
}

#[test]
fn playing_controls_step_every_tick() {
    let mut c = SimulationControls { dt: 1.0, paused: false, single_step: false };
    assert!(c.do_step());
    assert!(c.do_step());
}

#[test]
fn rebuild_falls_through_to_advance() {
    let mut needs_rebuild = true;
    let mut c = SimulationControls { dt: 1.0, paused: true, single_step: false };
    let plan = plan_tick(&mut needs_rebuild, &mut c);
    assert_eq!(plan, TickPlan { rebuild: true, advance: true });
    assert!(!needs_rebuild);
    let plan = plan_tick(&mut needs_rebuild, &mut c);
    assert_eq!(plan, TickPlan { rebuild: false, advance: false });
}

#[test]
fn pane_titles() {
    assert_eq!(Pane::CommonCfg.name(), "common");
    assert_eq!(Pane::CircuitEditor.name(), "Circuit simulation");
    assert_eq!(Pane::CircuitEditorCfg.name(), "Circuit configuration");
    assert_eq!(Pane::FdtdEditor.name(), "FDTD simulation");
    assert_eq!(Pane::FdtdEditorCfg.name(), "FDTD configuration");
}

#[test]
fn streamers_off_by_default() {
    assert_eq!(StreamersMode::default(), StreamersMode::Off);
}
