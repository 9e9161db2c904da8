//! Third-party license manifest of a build.
//!
//! The manifest lists, for every package that is shipped with the artifact,
//! the component name, the origin, the license and the copyright holder. It
//! is made in four steps:
//!
//! 1. [`filter`] walks the resolved dependency graph ([`graph`]) from its
//!    roots over edges of the normal kind and gives the packages that are
//!    shipped.
//! 2. [`package`] looks these packages up, leaves out the local ones, applies
//!    the user's overrides and gives each its canonical origin ([`origin`]).
//! 3. [`copyright`] says where to look for a copyright notice, recognises one
//!    in a text, and names the holder where none is found.
//! 4. [`reduce`] turns the packages into records ([`record`]), groups those
//!    that differ only in the component name, and reduces each group.
//!
//! [`drift`] compares a manifest with a stored one. [`text`] and [`order`]
//! hold what the steps need of texts: prefixes, suffixes and the order of
//! texts.

pub mod copyright;
pub mod drift;
pub mod filter;
pub mod graph;
pub mod order;
pub mod origin;
pub mod package;
pub mod record;
pub mod reduce;
pub mod text;
