//! The commands of the program: what their arguments mean, and what they
//! decide.
pub mod bundle;
pub mod deps;
pub mod doctor;
pub mod flags;
pub mod launch;
pub mod run;
pub mod serve;
pub mod test;
pub mod tooling;
