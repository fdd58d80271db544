//! A constraint-satisfaction engine: problems over integer variables, solved
//! by backtracking search with arc consistency and forward checking; a small
//! model-building language with classic puzzles; and two stand-alone
//! searches, map colouring and the cryptarithm `ISA + ROA = TELO`.
pub mod names;
pub mod constraint;
pub mod csp;
pub mod solve;
pub mod text;
pub mod cryptarithm;
pub mod dsl;
pub mod color;
pub mod isa;
