//! The diagnostic log sink of the process.
//!
//! A process has one log sink, and it can be bound once. This module holds
//! that guard as a value: it decides whether a request to bind takes effect,
//! and the caller sets the sink up where it does.

use vstd::prelude::*;

verus! {

/// The log sink of the process: unbound, or bound to a log file for good.
pub struct LogSink {
    target: Option<String>,
}

impl View for LogSink {
    type V = Option<Seq<char>>;

    closed spec fn view(&self) -> Option<Seq<char>> {
        match self.target {
            Some(path) => Some(path@),
            None => None,
        }
    }
}

impl LogSink {
    /// The sink of a process that has not bound it yet.
    pub fn new() -> (r: LogSink)
        ensures
            r@ is None,
    {
        LogSink { target: None }
    }

    /// The log file that the sink is bound to, if it is bound.
    pub fn target(&self) -> (r: Option<&str>)
        ensures
            match r {
                Some(path) => self@ == Some(path@),
                None => self@ is None,
            },
    {
        match &self.target {
            Some(path) => Some(path.as_str()),
            None => None,
        }
    }
}

/// Asks to bind the log sink to the file at `log_path`. An unbound sink is
/// bound to it, and the answer is `true`: the caller now sets the sink up. A
/// bound sink stays as it is, whatever `log_path` is, and the answer is
/// `false`: a sink is not bound again.
pub fn init_tracing(sink: &mut LogSink, log_path: &str) -> (bound: bool)
    ensures
        bound == (old(sink)@ is None),
        final(sink)@ == if old(sink)@ is None {
            Some(log_path@)
        } else {
            old(sink)@
        },
{
    if sink.target.is_none() {
        sink.target = Some(log_path.to_owned());
        true
    } else {
        false
    }
}

} // verus!
