//! Public functions reached through private helpers.
use vstd::prelude::*;

verus! {

/// Does nothing; reachable from outside.
pub fn middle_function() {
}

fn middle_secret_function() {
}

fn secret_function() {
}

/// Calls the private helpers.
pub fn inner_function() {
    middle_secret_function();
    secret_function()
}

/// Calls the public functions of this module.
pub fn try_me() {
    middle_function();
    inner_function();
}

/// Does nothing; reachable from outside.
pub fn nested_modules() {
}

} // verus!
