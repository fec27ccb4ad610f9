//! Verified core of a Bazel / Eclipse JDT bridge: aspect output parsing,
//! dependency graph, classpath computation and BUILD change detection.
use vstd::prelude::*;

pub mod strutil;
pub mod labels;
pub mod ide_info;
pub mod text_proto;
pub mod paths;
pub mod digraph;
pub mod assoc;
pub mod reach;
pub mod classpath;
pub mod graph;
pub mod model;
pub mod jars;
pub mod order;
pub mod text;
pub mod hashing;
pub mod aspect;
pub mod query;
pub mod change_detector;
pub mod build_file;
pub mod state;
pub mod request;
pub mod starlark;

verus! {
} // verus!
