use vstd::prelude::*;

pub mod config;
pub mod model;
pub mod text;

pub use config::{Config, StyleConfig};
pub use model::{ArrowStyle, Block, BlockKind, Branch, FlowEvent, FlowSpec, MessageSpec, Participant};
pub mod emit;
pub mod markers;
pub use emit::emit_plantuml;
pub mod discover;
pub mod walker;
pub mod callbacks;
pub mod plugin;
pub mod example;
pub mod walk_laws;
