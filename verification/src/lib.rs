//! A minimal real-time rendering engine for character-grid displays.
//!
//! The engine keeps a virtual cell buffer (one glyph and one foreground
//! color per cell), tracks exactly which cells a simulation changed since
//! the last committed frame, and turns that dirty set into a minimal list
//! of positioned writes for a physical display.

pub mod buffer;
pub mod cell;
pub mod driver;
pub mod maze;
pub mod sink;

pub use buffer::Utils;
pub use cell::Cell;
pub use cell::Color;
pub use driver::ConsoleGameEngine;
pub use driver::EngineError;
pub use driver::EngineState;
pub use driver::FrameOutput;
pub use driver::Rules;
pub use driver::SimulationDriver;
pub use maze::Maze;
pub use maze::MazeCell;
pub use maze::MazeRules;
pub use sink::WriteOp;
