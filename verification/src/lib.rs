//! Core logic of an RDAP lookup client: address canonicalization,
//! a TTL-bounded registry cache, jCard data modelling, and
//! bootstrap-registry precedence matching.

pub mod cache;
pub mod ip;
pub mod resolver;
pub mod vcard;

use vstd::prelude::*;

verus! {

} // verus!
