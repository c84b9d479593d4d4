//! A queryable index of a package's seams: locations where behaviour can be observed,
//! substituted or varied without editing the code there.
//!
//! Containment is a tree ([`index::SeamIndex`]) and every other relation is an edge
//! ([`edge::EdgeStore`]). Seam properties are facets, each under one of five closed
//! lenses. Identity is a semantic path ([`id::SeamPath`]), never a file position.

pub mod text;
pub mod num;
pub mod model;
pub mod coord;
pub mod rollup;
pub mod id;
pub mod config;
pub mod edge;
pub mod contribution;
pub mod index;
pub mod regroup;
pub mod query;
pub mod lang;
pub mod discover;
pub mod modules;
pub mod syntax;
pub mod extract;
pub mod parallel;
pub mod package;
