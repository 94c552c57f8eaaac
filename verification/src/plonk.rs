//! The PLONK-style argument: circuits, keys, witnesses and proofs.

pub mod acceptance;
pub mod assigned;
pub mod checks;
pub mod circuit;
pub mod closing;
pub mod combining;
pub mod committing;
pub mod completeness;
pub mod compress_selectors;
pub mod constraint_system;
pub mod constraints;
pub mod conversion;
pub mod degrees;
pub mod encoding;
pub mod error;
pub mod evaluation;
pub mod evaluations;
pub mod evaluator;
pub mod expression;
pub mod extents;
pub mod finished;
pub mod flattening;
pub mod gates;
pub mod graph;
pub mod graph_entries;
pub mod graph_values;
pub mod holding;
pub mod honest;
pub mod identifiers;
pub mod keygen;
pub mod keys;
pub mod launch;
pub mod logging;
pub mod lookup;
pub mod openings;
pub mod order;
pub mod performing;
pub mod permutation;
pub mod points;
pub mod products;
pub mod progress;
pub mod protocol;
pub mod prover;
pub mod proving;
pub mod queries;
pub mod quotient;
pub mod ranking;
pub mod reading;
pub mod registering;
pub mod relations;
pub mod running;
pub mod satisfaction;
pub mod selectors;
pub mod seeding;
pub mod shapes;
pub mod tape;
pub mod texts;
pub mod upkeep;
pub mod vanishing;
pub mod virtual_cells;
pub mod wire;
pub mod witness;
