//! A small vector-space retrieval engine: it builds a vocabulary and a
//! term-frequency index over tokenised documents, projects a query onto the
//! vocabulary and ranks documents by their similarity scores.
//!
//! All counting, ordering and filtering is done on integers; the weighting of
//! counts into real-valued scores is left to the caller.

pub mod calculations;
pub mod loading;
pub mod model;
pub mod session;
pub mod text_process;
pub mod vocabulary;
