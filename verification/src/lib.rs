//! A framework for composing reduced-complexity climate models from
//! independent physical components.
//!
//! A model is an ordered collection of components wired into a directed
//! acyclic dependency graph and advanced in lock-step along a shared time
//! axis.  Times and values are fixed-point decimals ([`scalar::Scalar`]),
//! so every rule of the framework can be stated and proved exactly.

pub mod scalar;

pub mod errors;

pub mod interpolate;

pub mod timeseries;

pub mod timeseries_collection;

pub mod component;

pub mod example_components;

pub mod ivp;

pub mod model;
