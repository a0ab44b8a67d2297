//! The declarations that a configuration holds: interfaces with their states
//! and actions, and lenses with their rules, all by label.
use vstd::prelude::*;

verus! {

/// Everything a configuration declares.
#[derive(Debug)]
pub struct Config {
    pub interfaces: Vec<InterfaceConfig>,
    pub lenses: Vec<LensConfig>,
    pub diagram: DiagramConfig,
}

/// An interface: a group of states.
#[derive(Debug)]
pub struct InterfaceConfig {
    pub label: String,
    pub states: Vec<StateConfig>,
}

/// A state and the labels of the actions that belong to it.
#[derive(Debug)]
pub struct StateConfig {
    pub label: String,
    pub actions: Vec<String>,
}

/// A lens: its rules, and the domains it translates between.
#[derive(Debug)]
pub struct LensConfig {
    pub label: String,
    pub source: Domain,
    pub target: Domain,
    pub rules: Vec<RuleConfig>,
}

/// A rule, as the labels of its pattern and of its replacement.
#[derive(Debug)]
pub struct RuleConfig {
    pub from: Vec<String>,
    pub to: Vec<String>,
}

/// A diagram between two domains, with the diagrams it is built from.
#[derive(Debug)]
pub struct DiagramConfig {
    pub where_diagrams: Vec<DiagramConfig>,
    pub source: Domain,
    pub target: Domain,
}

/// A domain of a lens or diagram: a state taken once, a number of times,
/// any number of times, or one domain followed by another.
#[derive(Debug)]
pub enum Domain {
    Once { label: String },
    Exactly { iterations: usize, label: String },
    Any { label: String },
    Composition { first: Box<Domain>, then: Box<Domain> },
}

impl Domain {
    /// The label of the state a simple domain ranges over; `None` for a composition.
    pub fn state_label(&self) -> (r: Option<&String>)
        ensures
            match self {
                Domain::Once { label } => r == Some(label),
                Domain::Exactly { label, .. } => r == Some(label),
                Domain::Any { label } => r == Some(label),
                Domain::Composition { .. } => r.is_none(),
            },
    {
        match self {
            Domain::Once { label } => Some(label),
            Domain::Exactly { label, .. } => Some(label),
            Domain::Any { label } => Some(label),
            Domain::Composition { .. } => None,
        }
    }
}

} // verus!
