//! The first configuration format of the Beeline prototype: hosts by
//! address, the header patterns to parse, and routes by predicates.

use vstd::prelude::*;

verus! {

#[derive(Clone, Debug)]
pub struct Config {
    pub hosts: Vec<Host>,
    pub spec: Spec,
}

#[derive(Clone, Debug)]
pub struct Spec {
    /// What to parse.
    pub patterns: Patterns,
    /// Where to forward.
    pub routes: Vec<Route>,
}

/// The HTTP fields to parse, by name, with their patterns.
#[derive(Clone, Debug)]
pub struct Patterns {
    pub http: Vec<(String, String)>,
}

/// A route: requests whose fields satisfy the predicates go to the destination.
#[derive(Clone, Debug)]
pub struct Route {
    pub predicates: Vec<(String, String)>,
    pub destination: Destination,
}

#[derive(Clone, Debug)]
pub struct Host {
    pub name: String,
    pub address: String,
}

#[derive(Clone, Debug)]
pub struct Destination {
    pub host: String,
    pub port: u16,
}

} // verus!
