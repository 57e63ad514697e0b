//! A verified boundary layer around an opaque, handle-based build engine:
//! an ownership-transfer codec for diagnostics crossing the boundary, a
//! reference-counted handle lifecycle, a registry of hook slots with
//! foreign-signalled teardown, a one-shot async completion bridge with
//! cancellation on drop, and read-only projections over boundary-owned
//! results.

pub mod context;
pub mod engine;
pub mod error;
pub mod future;
pub mod options;
pub mod plugin;
pub mod result;
pub mod wire;

pub use context::{Context, ContextError};
pub use engine::{build, Engine};
pub use error::{
    IntoFFI, Location, LocationBuilder, Message, MessageBuilder, Note, NoteBuilder,
};
pub use future::{BuildFuture, BuildFutureState};
pub use options::BuildOptions;
pub use plugin::{IntoPluginDescriptor, OnStartResult, Plugin, PluginBuilder, PluginDescriptor};
pub use result::{BuildJob, BuildResult, OutputFile};
pub use wire::{decompose_string, Boundary};
