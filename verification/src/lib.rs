//! Walks the definitions of a compiled project, as recorded in its analysis
//! database, and picks the build target that the database is made for.
//!
//! - [`target`] and [`metadata`] choose the target to analyse among those
//!   that the package metadata declares; [`command`] gives the run of the
//!   build tool that produces its analysis.
//! - [`store`] reads the analysis database; [`signature`] resolves the
//!   signature of a definition against it.
//! - [`walk`] visits every definition, each before its children and
//!   siblings in the order of [`order`], and emits the [`record`]s of the
//!   rendered tree.
//! - [`laws`] states what holds of every walk.

pub mod command;
pub mod error;
pub mod json;
pub mod laws;
pub mod metadata;
pub mod order;
pub mod record;
pub mod sequence;
pub mod signature;
pub mod store;
pub mod target;
pub mod text;
pub mod walk;
