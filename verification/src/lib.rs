//! Verified core of a KiCad component-database toolchain.
use vstd::prelude::*;

pub mod content_hash;
pub mod grid;
pub mod wavefront;
pub mod maze;
pub mod pattern_route;
pub mod text;
pub mod symgen;
pub mod rules;
pub mod rule_text;
pub mod rule_expr;
pub mod skill_match;
pub mod service;
pub mod composition;
pub mod topology;
pub mod net_topology;
pub mod mst;
pub mod nets;
pub mod bus_groups;
pub mod silk;
pub mod schema;

verus! {
}
