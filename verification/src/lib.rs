//! Library side of `npump`: finding out which npm dependencies of a
//! workspace have newer releases, rewriting their version specifiers in
//! `package.json`, and the state behind the interactive selection screen.
//!
//! - `semver_pattern`: where the version in a specifier such as `^1.2.3` is.
//! - `version`: semantic versions as `semver` parses and orders them.
//! - `json`: the manifest document and the one edit made to it.
//! - `model`: dependency entries, a workspace's list and its updates.
//! - `workspace`: which workspaces and dependencies a project has.
//! - `paths`: the order of manifest paths, and which of them are the same.
//! - `registry`: what the npm registry's answers mean, and the cache of them.
//! - `session`: the selection screen's state and its key bindings.
//! - `screen`: the text of the rows shown.

pub mod json;
pub mod model;
pub mod paths;
pub mod registry;
pub mod screen;
pub mod semver_pattern;
pub mod session;
pub mod text;
pub mod version;
pub mod workspace;

pub use json::{JsonMember, JsonValue};
pub use model::{extract_first_semver, DependencySection, PackageEntry, WorkspaceState};
pub use registry::{registry_url, Registry, RegistryReply};
pub use session::{App, Key, KeyCommand};
pub use version::SemVersion;
pub use workspace::{build_entries, dependency_candidates, workspace_patterns, DependencyCandidate};
