//! A rewriting engine for sequences of actions.
//!
//! Sequences of symbols are stored in a deduplicated index of nodes
//! (`domain`), a recognizer matches the top of a stack (`stack`) against a
//! stored sequence, and a transducer (`engine`) rewrites the stack by the
//! rules of a lens (`lens`) until it is reduced, stuck, or out of steps.
//! Lenses compose by joining rules on the sequence they share. A
//! configuration of labelled states, actions and lenses (`config`) is loaded
//! by the label layer (`label`). The other modules hold the smaller
//! structures the engine grew from: chains and sequence contexts, trees,
//! queues, interactions, entity maps, finite functions, relations and
//! delegation lenses.
pub mod base;
pub mod stack;
pub mod domain;
pub mod rule;
pub mod vector;
pub mod lens;
pub mod engine;
pub mod tree;
pub mod queue;
pub mod interaction;
pub mod function;
pub mod relation;
pub mod label;
pub mod entity;
pub mod config;
pub mod chain;
pub mod sequence;
pub mod delegation;
