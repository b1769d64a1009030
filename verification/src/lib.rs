//! Decision procedure for label-compatibility maps (LCP-maps) between two
//! locally checkable labeling problems.
//!
//! A problem is given by a set of *active* and a set of *passive*
//! configurations, each configuration a fixed-arity sequence of labels.  The
//! library searches for a mapping that sends every active source configuration
//! to an active target configuration, label by label, such that the induced
//! relation on labels keeps every passive source configuration (after
//! substitution) inside the passive target configuration set.
//!
//! `search::find_lcp` is the entry point of the search; `parse` holds the
//! shorthand grammar for configuration files and the normalization of parsed
//! rows.

pub mod compat;
pub mod laws;
pub mod order;
pub mod parse;
pub mod relation;
pub mod search;
