//! The process signals the service reacts to.

use vstd::prelude::*;

verus! {

/// A termination-relevant POSIX signal.
#[derive(Clone, Copy)]
pub enum Signal {
    Sigint,
    Sigterm,
    Sighup,
    Sigabrt,
    Sigquit,
}

impl Signal {
    /// The lowercase name of the signal.
    pub open spec fn spec_name(self) -> Seq<char> {
        match self {
            Signal::Sigint => "sigint"@,
            Signal::Sigterm => "sigterm"@,
            Signal::Sighup => "sighup"@,
            Signal::Sigabrt => "sigabrt"@,
            Signal::Sigquit => "sigquit"@,
        }
    }

    /// Names the signal for log lines.
    pub fn name(&self) -> (r: &'static str)
        ensures
            r@ == self.spec_name(),
    {
        match self {
            Signal::Sigint => "sigint",
            Signal::Sigterm => "sigterm",
            Signal::Sighup => "sighup",
            Signal::Sigabrt => "sigabrt",
            Signal::Sigquit => "sigquit",
        }
    }
}

} // verus!
