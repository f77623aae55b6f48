//! A real-time audio effects board: the pedalboard and its graph, the compiled
//! schedule that an audio callback walks through, the rules by which streams are
//! opened, and the state that browser clients share.
//!
//! A sample is carried as the bit pattern of an IEEE-754 single-precision number. Samples
//! are compared, limited and added here; the effects themselves belong to a
//! [`nodes::Processor`].
pub mod adding;
pub mod args;
pub mod audio;
pub mod block;
pub mod controls;
pub mod delay;
pub mod engine;
pub mod frames;
pub mod graph;
pub mod nodes;
pub mod opening;
pub mod order;
pub mod outcome;
pub mod replay;
pub mod ring;
pub mod sample;
pub mod schedule;
pub mod state;
pub mod table;
pub mod text;
pub mod web;

pub use audio::{AudioConfig, EngineStats, HostDevices, RunningInfo};
pub use engine::AudioEngine;
pub use graph::{Board, Connection, NodeDesc, INPUT_ID, OUTPUT_ID};
pub use nodes::{AtomicF32, NodeInfo, NodeKind, ParamSpec};
pub use schedule::{LiveNode, Schedule};
