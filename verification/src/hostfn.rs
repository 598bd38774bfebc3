//! A plain description of a callable's signature: its name, the types of
//! its parameters and the types of its results, all as text. The service
//! around the engine reports the functions a loaded runtime module imports
//! and exports in this form.
use vstd::prelude::*;

verus! {

#[derive(Clone, Debug, PartialEq)]
pub struct HostFunction {
    pub name: String,
    pub params: Vec<String>,
    pub results: Vec<String>,
}

} // verus!
