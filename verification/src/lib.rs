//! Reconciles network-access allow-lists against a desired state encoded in
//! resource tags: named CIDR groups are declared at startup, resources opt in
//! by tagging themselves with group names and port/protocol specifications,
//! and the controller additively patches each resource to match.

pub mod cidr;
pub mod config;
pub mod ingress;
pub mod merge;
pub mod ports;
pub mod registry;
pub mod scope;
pub mod tags;
pub mod text;

use vstd::prelude::*;

verus! {

/// Description attached to every ingress rule this controller authorizes.
pub fn controller_marker() -> (r: &'static str)
    ensures
        r@ == "manager:ctrl-cidr"@,
{
    "manager:ctrl-cidr"
}

} // verus!
