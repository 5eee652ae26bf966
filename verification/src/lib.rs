//! Aggregation of changelog fragments into a structured, renderable
//! change set.
//!
//! Contributors drop one small file per change into a directory tree: a
//! directory per change set, in it an optional summary and a directory per
//! section, in a section either entry files or a directory per component
//! with entry files. This library reads a snapshot of such a tree into a
//! [`ChangeSet`] and renders it as text.

pub mod changelog;
pub mod error;

pub use changelog::change_set::ChangeSet;
pub use changelog::change_set_section::{ChangeSetSection, SectionBody};
pub use changelog::component_section::ComponentSection;
pub use changelog::config::{BulletStyle, ChangeSetsConfig, Component, ComponentsConfig, Config};
pub use changelog::entry::Entry;
pub use changelog::fs_utils::{DirEntry, DirSnapshot, FileSnapshot, PathSnapshot};
pub use error::Error;
