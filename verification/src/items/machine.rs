//! Machine names as typed handles over their own registry, so machine
//! identifiers can never be confused with item identifiers.
use vstd::prelude::*;
use vstd::string::StringExecFns;

use crate::atom::{Atom, Registry};

verus! {

/// Domain marker tagging atoms and the registry of the machine vocabulary.
#[derive(Debug, Clone, Copy, PartialEq, Eq, Hash)]
pub struct MachineDomain;

/// Error: a key was never registered as a machine name; carries the
/// rejected input so the caller can report exactly what was given.
#[derive(Debug, Clone, PartialEq, Eq)]
pub struct InvalidMachine(pub String);

impl InvalidMachine {
    /// The error rendered for people.
    pub fn message(&self) -> (r: String)
        ensures
            r@ == "Unrecognized machine name "@ + self.0@,
    {
        let mut s: String = <String as StringExecFns>::from_str("Unrecognized machine name ");
        s.append(self.0.as_str());
        s
    }
}

/// A typed handle standing in for a registered machine name.
#[derive(Debug, Clone, Copy, PartialEq, Eq, Hash)]
pub struct Machine(Atom<MachineDomain>);

impl View for Machine {
    type V = u64;

    closed spec fn view(&self) -> u64 {
        self.0@
    }
}

impl Machine {
    /// Constructs a handle by looking the key up in the machine registry; an
    /// unregistered key is rejected with an `InvalidMachine` carrying it.
    pub fn new(reg: &Registry<MachineDomain>, val: &str) -> (r: Result<Machine, InvalidMachine>)
        requires
            reg.wf(),
        ensures
            r is Ok <==> reg@.contains_key(val@),
            r matches Ok(m) ==> m@ == reg@[val@],
            r matches Err(e) ==> e.0@ == val@,
    {
        match reg.lookup(val) {
            Some(a) => Ok(Machine(a)),
            None => Err(InvalidMachine(val.to_owned())),
        }
    }

    /// Recovers a copy of the machine name behind this handle; total for
    /// every handle issued by the given registry.
    pub fn cloned(&self, reg: &Registry<MachineDomain>) -> (r: String)
        requires
            reg.wf(),
            reg.rev().contains_key(self@),
        ensures
            r@ == reg.rev()[self@],
    {
        match reg.peek_value(self.0) {
            Some(s) => s.clone(),
            None => vstd::pervasive::unreached(),
        }
    }

    /// The numeric identifier behind this handle.
    pub fn id(&self) -> (r: u64)
        ensures
            r == self@,
    {
        self.0.id()
    }
}

} // verus!
