//! Core of a retained-mode GUI component framework for canvas-rendered
//! applications.
//!
//! The crate routes input events (keyboard, mouse, clipboard) to interactive
//! regions with exact precedence and consumption semantics, tracks which
//! screen regions must be redrawn each frame, propagates redraw requirements
//! across stacked, possibly transparent layers, and manages the lifecycle of
//! dynamically created and destroyed components without invalidating
//! in-flight iteration.

pub mod agent;
pub mod arena;
pub mod clipboardlistening;
pub mod color;
pub mod component;
pub mod container;
pub mod cursor;
pub mod flat;
pub mod keylistening;
pub mod layer;
pub mod layered;
pub mod listeners;
pub mod mouselistening;
pub mod params;
pub mod phase;
pub mod region;
pub mod render;
pub mod update;
