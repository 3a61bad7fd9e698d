//! Compatibility reports from continuous-integration pipelines: which versions
//! of a dependency each service declares that it is tested against.
//!
//! The crate walks a pipeline document along a dotted path, reads the version
//! list found there, reduces a service's tags to one representative per major
//! line, and lays the results out as a table of services against versions.

pub mod collection;
pub mod config;
pub mod document;
pub mod env_manager;
pub mod gitlab_api;
pub mod gitlab_ci;
pub mod path;
pub mod table_builder;
pub mod text;
pub mod versions;
