//! Layered configuration overlays: resolving an overlay from a registry of
//! directories, composing it with the overlays it uses, and mirroring its
//! tree onto a target directory as directories and symbolic links.
pub mod adopt;
pub mod compose;
pub mod context;
pub mod fetch;
pub mod glob;
pub mod keyed;
pub mod mirror;
pub mod overlay;
pub mod paths;
pub mod registry;

pub use adopt::{AddError, MoveFile};
pub use context::{Context, TargetError};
pub use fetch::EnsureGitRepository;
pub use glob::pattern;
pub use mirror::{EnsureDir, EnsureLink};
pub use overlay::{Config, Overlay, OverlayError, Repository};
