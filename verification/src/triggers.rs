//! Background triggers, kept until the session starts them.

use vstd::prelude::*;

verus! {

/// The triggers of a session, of type `T`, in the order they were registered.
#[derive(Debug)]
pub struct TriggerRunner<T> {
    pub triggers: Vec<T>,
}

impl<T> TriggerRunner<T> {
    /// A runner for `triggers`.
    pub fn new(triggers: Vec<T>) -> (r: Self)
        ensures
            r.triggers == triggers,
    {
        TriggerRunner { triggers }
    }
}

}
