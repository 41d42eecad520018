use vstd::prelude::*;

pub mod fnv;
pub mod text;
pub mod erasure;
pub mod textmap;
pub mod ontology;
pub mod number;
pub mod json;
pub mod lethe;
pub mod digest;
pub mod provenance;
pub mod repair;
pub mod lenient;
pub mod schema;
pub mod check;
pub mod answers;
pub mod reconcile;
pub mod report;
pub mod drift_report;
pub mod seam;
pub mod json_laws;

verus! {

} // verus!
