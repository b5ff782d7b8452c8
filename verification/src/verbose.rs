//! The verbose-progress switch and the lines it prints.
use vstd::prelude::*;
use vstd::string::*;
use crate::text::{decimal, decimal_string};

verus! {

/// On/off flag for verbose progress output.
#[derive(Clone, Copy, Debug, Default)]
pub struct Verbose(pub bool);

/// `[docq] ` followed by `msg`.
pub open spec fn tagged(msg: Seq<char>) -> Seq<char> {
    "[docq] "@ + msg
}

impl Verbose {
    /// Whether verbose output is on.
    pub fn enabled(&self) -> (b: bool)
        ensures
            b == self.0,
    {
        self.0
    }

    /// The line an informational message prints: `[docq] <msg>` when
    /// verbose output is on, nothing otherwise.
    pub fn log_line(&self, msg: &str) -> (line: Option<String>)
        ensures
            self.0 ==> line is Some && line->0@ == tagged(msg@),
            !self.0 ==> line is None,
    {
        if self.0 {
            let mut l = String::from_str("[docq] ");
            l.append(msg);
            Some(l)
        } else {
            None
        }
    }

    /// The line a completed step prints: `[docq] <name>: <ms> ms` when
    /// verbose output is on, nothing otherwise.
    pub fn step_line(&self, name: &str, elapsed_ms: u128) -> (line: Option<String>)
        ensures
            self.0 ==> line is Some && line->0@ == tagged(
                name@ + ": "@ + decimal(elapsed_ms as nat) + " ms"@,
            ),
            !self.0 ==> line is None,
    {
        if self.0 {
            let mut l = String::from_str("[docq] ");
            l.append(name);
            l.append(": ");
            l.append(decimal_string(elapsed_ms).as_str());
            l.append(" ms");
            Some(l)
        } else {
            None
        }
    }

    /// Start a named step (its timing is reported when it ends).
    pub fn start(&self, name: &str) -> (s: Step)
        ensures
            s.verbose == *self,
            s.name@ == name@,
    {
        Step::new(*self, name)
    }
}

/// A named step of a verbose run.
#[derive(Debug)]
pub struct Step {
    pub verbose: Verbose,
    pub name: String,
}

impl Step {
    /// A step called `name` under `verbose`.
    pub fn new(verbose: Verbose, name: &str) -> (s: Step)
        ensures
            s.verbose == verbose,
            s.name@ == name@,
    {
        Step { verbose, name: name.to_string() }
    }

    /// The line printed when the step starts: `[docq] <name>...` when
    /// verbose output is on.
    pub fn start_line(&self) -> (line: Option<String>)
        ensures
            self.verbose.0 ==> line is Some && line->0@ == tagged(self.name@ + "..."@),
            !self.verbose.0 ==> line is None,
    {
        if self.verbose.0 {
            let mut l = String::from_str("[docq] ");
            l.append(self.name.as_str());
            l.append("...");
            Some(l)
        } else {
            None
        }
    }

    /// The line printed when the step ends after `elapsed_ms` milliseconds:
    /// `[docq] <name>: <ms> ms` when verbose output is on.
    pub fn finish_line(&self, elapsed_ms: u128) -> (line: Option<String>)
        ensures
            self.verbose.0 ==> line is Some && line->0@ == tagged(
                self.name@ + ": "@ + decimal(elapsed_ms as nat) + " ms"@,
            ),
            !self.verbose.0 ==> line is None,
    {
        self.verbose.step_line(self.name.as_str(), elapsed_ms)
    }
}

} // verus!
