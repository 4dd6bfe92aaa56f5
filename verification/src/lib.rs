//! Hints for repairing a faulty transition model: which transitions no
//! valid scenario uses, which randomly generated transitions make every
//! scenario solvable, and how strongly each hint points at the fault.
pub mod model;
pub mod text;
mod random;
pub mod untriggered;
pub mod generated;
pub mod graded;
pub mod anomalies;
