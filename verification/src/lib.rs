//! Interactive tree-selection engine and codebase exporter.
//!
//! The heart of the crate is the file selector: an event-driven state machine
//! over an in-memory snapshot of a directory tree.  It keeps a flattened list
//! of visible rows consistent with the expanded-directory set, the
//! selected-file set and the hidden-file flag, and it clamps the cursor into
//! the row list after every command.  The output generator turns the final
//! selection into a single text artifact.
//!
//! All tree, selection and formatting logic is verified; reading directories,
//! drawing the terminal and persisting state are left to the binary around the
//! library, which hands plain values in and out.

pub mod bytes;
pub mod config;
pub mod file_selector;
pub mod fs_tree;
pub mod output_generator;
pub mod paths;
pub mod state_manager;

pub use config::{Config, OutputFormat};
pub use file_selector::{FileSelector, InputEvent, SelectorOutcome};
pub use fs_tree::{FileItem, FsEntry, FsNode};
pub use output_generator::{ExportFile, OutputGenerator};
pub use paths::PathSet;
pub use state_manager::{GlobalState, ProjectState};
