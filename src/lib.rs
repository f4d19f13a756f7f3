//! Normalizes the layout of Cargo manifests: canonical section order,
//! inline form for small explicit sub-tables, byte-wise sorted dependency
//! tables. Formatting that is not deliberately changed is kept line for line.

pub mod text;
pub mod batch;
pub mod classify;
pub mod order;
pub mod pipeline;
pub mod regroup;
pub mod regroup_lemmas;
pub mod table;
