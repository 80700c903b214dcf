use vstd::prelude::*;
use crate::timer::{Timer, TimerMode};

verus! {

/// An opaque token for a loaded renderable asset; the simulation only copies it.
#[derive(Clone, Copy, Debug, PartialEq, Eq, Structural)]
pub struct SceneHandle {
    pub id: u64,
}

/// Shared assets: the projectile's scene, once it has been loaded.
#[derive(Clone, Copy, Debug, PartialEq, Eq, Structural)]
pub struct GameAssets {
    pub bullet_scene: Option<SceneHandle>,
}

/// Position in millimetres and rotation about the vertical axis in
/// thousandths of a degree.
#[derive(Clone, Copy, Debug, PartialEq, Eq, Structural)]
pub struct Transform {
    pub x_mm: i64,
    pub y_mm: i64,
    pub z_mm: i64,
    pub yaw_millideg: i64,
}

/// A stationary tower that fires each time its repeating timer completes.
#[derive(Clone, Copy, Debug, PartialEq, Eq, Structural)]
pub struct Tower {
    pub shooting_timer: Timer,
}

/// A countdown after which the owning entity is destroyed.
#[derive(Clone, Copy, Debug, PartialEq, Eq, Structural)]
pub struct Lifetime {
    pub timer: Timer,
}

impl Tower {
    pub open spec fn wf(self) -> bool {
        self.shooting_timer.wf() && self.shooting_timer.mode == TimerMode::Repeating
    }
}

impl Lifetime {
    pub open spec fn wf(self) -> bool {
        self.timer.wf() && self.timer.mode == TimerMode::Once
    }
}

} // verus!
