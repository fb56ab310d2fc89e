//! A terminal snake game whose board cells describe the snake's own
//! path: the grid engine that advances the snake and detects collisions,
//! the debounced direction queue, and the controller that mediates
//! between them, all carrying machine-checked contracts.  Rendering,
//! key handling and the event threads live outside this crate and talk
//! to it through plain values and the [`views::View`] capability.
#![allow(unused_imports)]
use vstd::prelude::*;

pub mod controller;
pub mod grid_count;
pub mod model;
pub mod views;

verus! {

/// Run-time options of the game: which renderer to use, the board
/// dimensions, and the length of one tick in milliseconds.
#[derive(Clone, Copy, Debug)]
pub struct Config {
    pub view_type: ViewType,
    pub grid_height: usize,
    pub grid_width: usize,
    pub update_interval_ms: u64,
}

impl Config {
    pub fn view_type(&self) -> (r: &ViewType)
        ensures
            r == &self.view_type,
    {
        &self.view_type
    }

    pub fn builder() -> (r: ConfigBuilder)
        ensures
            r.view_type is None,
            r.grid_height is None,
            r.grid_width is None,
            r.update_interval_ms is None,
    {
        ConfigBuilder {
            view_type: None,
            grid_height: None,
            grid_width: None,
            update_interval_ms: None,
        }
    }
}

/// Collects the options one by one; `build` fills the gaps with the
/// documented defaults (a 10 x 20 text-mode board, 200 ms ticks).
pub struct ConfigBuilder {
    pub view_type: Option<ViewType>,
    pub grid_height: Option<usize>,
    pub grid_width: Option<usize>,
    pub update_interval_ms: Option<u64>,
}

impl ConfigBuilder {
    pub fn set_view_type(self, view_type: ViewType) -> (r: ConfigBuilder)
        ensures
            r.view_type == Some(view_type),
            r.grid_height == self.grid_height,
            r.grid_width == self.grid_width,
            r.update_interval_ms == self.update_interval_ms,
    {
        ConfigBuilder { view_type: Some(view_type), ..self }
    }

    pub fn set_grid_height(self, grid_height: usize) -> (r: ConfigBuilder)
        ensures
            r.grid_height == Some(grid_height),
            r.view_type == self.view_type,
            r.grid_width == self.grid_width,
            r.update_interval_ms == self.update_interval_ms,
    {
        ConfigBuilder { grid_height: Some(grid_height), ..self }
    }

    pub fn set_grid_width(self, grid_width: usize) -> (r: ConfigBuilder)
        ensures
            r.grid_width == Some(grid_width),
            r.view_type == self.view_type,
            r.grid_height == self.grid_height,
            r.update_interval_ms == self.update_interval_ms,
    {
        ConfigBuilder { grid_width: Some(grid_width), ..self }
    }

    pub fn set_update_interval(self, update_interval_ms: u64) -> (r: ConfigBuilder)
        ensures
            r.update_interval_ms == Some(update_interval_ms),
            r.view_type == self.view_type,
            r.grid_height == self.grid_height,
            r.grid_width == self.grid_width,
    {
        ConfigBuilder { update_interval_ms: Some(update_interval_ms), ..self }
    }

    pub fn build(self) -> (r: Config)
        ensures
            r.view_type == self.view_type.unwrap_or(ViewType::TUI),
            r.grid_height == self.grid_height.unwrap_or(10usize),
            r.grid_width == self.grid_width.unwrap_or(20usize),
            r.update_interval_ms == self.update_interval_ms.unwrap_or(200u64),
    {
        Config {
            view_type: match self.view_type {
                Some(v) => v,
                None => ViewType::TUI,
            },
            grid_height: match self.grid_height {
                Some(h) => h,
                None => 10,
            },
            grid_width: match self.grid_width {
                Some(w) => w,
                None => 20,
            },
            update_interval_ms: match self.update_interval_ms {
                Some(i) => i,
                None => 200,
            },
        }
    }
}

/// The renderer back ends the game knows of.
#[derive(Clone, Copy, Debug, PartialEq, Eq, Structural)]
pub enum ViewType {
    GUI,
    TUI,
}

} // verus!
