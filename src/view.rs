//! Choices of the presentation around the simulation.
use vstd::prelude::*;

verus! {

/// Which field, if any, the streamer particles follow.
#[derive(Clone, Copy, Debug, Default, PartialEq, Eq, Structural)]
pub enum StreamersMode {
    #[default]
    Off,
    HField,
    EField,
}

/// The panes of the application window.
#[derive(Clone, Copy, Debug, PartialEq, Eq, Structural)]
pub enum Pane {
    CircuitEditor,
    CircuitEditorCfg,
    FdtdEditor,
    FdtdEditorCfg,
    CommonCfg,
}

impl Pane {
    /// The title of the pane.
    pub fn name(&self) -> (r: &'static str)
        ensures
            *self == Pane::CommonCfg ==> r@ == "common"@,
            *self == Pane::CircuitEditor ==> r@ == "Circuit simulation"@,
            *self == Pane::CircuitEditorCfg ==> r@ == "Circuit configuration"@,
            *self == Pane::FdtdEditor ==> r@ == "FDTD simulation"@,
            *self == Pane::FdtdEditorCfg ==> r@ == "FDTD configuration"@,
    {
        match self {
            Pane::CommonCfg => "common",
            Pane::CircuitEditor => "Circuit simulation",
            Pane::CircuitEditorCfg => "Circuit configuration",
            Pane::FdtdEditor => "FDTD simulation",
            Pane::FdtdEditorCfg => "FDTD configuration",
        }
    }
}

} // verus!
