//! Structured encryption for select/project/join queries over an outsourced
//! relational database: an encrypted multi-map, a structured token index built
//! on it, the reference-table algebra used while evaluating, and the
//! orchestration that stores encrypted cell values.
pub mod crypto_helper;
pub mod encoding;
pub mod bytemap;
pub mod mm;
pub mod emm;
pub mod eval_references;
pub mod token;
pub mod db_structs;
pub mod index;
pub mod eval;
pub mod fin;
pub mod sti;
pub mod ste;
