//! The logging layer that wraps every gRPC service.

use vstd::prelude::*;

verus! {

/// A service wrapped so that its failed responses get logged.
#[derive(Debug, Clone)]
pub struct Logger<S> {
    pub inner: S,
}

impl<S> Logger<S> {
    /// Wraps `inner`.
    pub fn new(inner: S) -> (r: Self)
        ensures
            r.inner == inner,
    {
        Logger { inner }
    }
}

} // verus!
