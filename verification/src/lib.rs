//! Lowest common ancestors in directed graphs that are meant to be trees or
//! forests, with safe answers where the graph is not one: a query on a node
//! with a cycle among its ancestors, or on two nodes without a common
//! ancestor, has no answer.
//!
//! A query walks the graph without a limit on its depth or on the number of
//! nodes that it visits, and cannot be interrupted. A caller that needs an
//! answer within a given time has to see to that from outside.

pub mod ancestry;
pub mod cycle;
pub mod graph;
pub mod host;
pub mod laws;
pub mod nearest;
pub mod rooted;
pub mod walk;
