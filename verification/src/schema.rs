//! Snapshot types for the window manager's reported state.
//!
//! Each value is a read-only snapshot taken once per invocation. Window
//! frames are modeled with integer coordinates: the selection logic orders
//! windows by whole-pixel position, so the caller rounds the reported
//! coordinates toward zero before handing a snapshot in.

use vstd::prelude::*;

verus! {

/// A window's on-screen rectangle.
#[derive(Clone, Copy, Debug, PartialEq, Eq, Structural)]
pub struct Frame {
    pub x: i64,
    pub y: i64,
    pub w: i64,
    pub h: i64,
}

/// One on-screen window, with the attributes the selection logic reads.
#[derive(Clone, Copy, Debug, PartialEq, Eq, Structural)]
pub struct Window {
    /// Unique identifier of the window.
    pub id: u32,
    /// Identifier of the display the window is on.
    pub display: u32,
    /// The window's on-screen rectangle.
    pub frame: Frame,
    /// Whether the window is currently visible.
    pub is_visible: bool,
    /// Whether the window currently holds focus.
    pub has_focus: bool,
}

/// One display, with the attributes the selection logic reads.
#[derive(Clone, Copy, Debug, PartialEq, Eq, Structural)]
pub struct Display {
    /// Unique identifier of the display.
    pub id: u32,
    /// Whether the display currently holds focus.
    pub has_focus: bool,
}

/// Layout mode of a space: one of three mutually exclusive tiling
/// strategies.
#[derive(Clone, Copy, Debug, PartialEq, Eq, Structural)]
pub enum SpaceType {
    /// Binary-split tiling.
    Bsp,
    /// Single stacked window.
    Stack,
    /// Unmanaged free-floating windows; the layout toggle leaves it alone.
    Float,
}

/// A virtual desktop/workspace as reported by the window manager.
#[derive(Debug)]
pub struct Space {
    pub id: u32,
    pub uuid: String,
    pub index: u32,
    pub label: String,
    pub space_type: SpaceType,
    pub display: u32,
    pub windows: Vec<u32>,
    pub first_window: u32,
    pub last_window: u32,
    pub has_focus: bool,
    pub is_visible: bool,
    pub is_native_fullscreen: bool,
}

} // verus!
