//! The error value shared by the 2-SAT oracle and the DIMACS reader.

use vstd::prelude::*;

verus! {

/// Why an operation was refused.
#[derive(Clone, Copy, Debug, PartialEq, Eq, Structural)]
pub enum Reason {
    /// A clause of three literals reached the 2-SAT oracle.
    NotA2SatFormula,
    /// An empty clause reached the 2-SAT oracle.
    EmptyClauseGiven,
    /// A literal and its negation imply each other.
    NegationInSameSCC,
    /// The text is not well-formed DIMACS CNF.
    Malformed,
}

/// An error with its reason and a message for people.
#[derive(Debug)]
pub struct Error {
    pub reason: Reason,
    pub message: String,
}

impl Error {
    /// An error about malformed input, with the given message.
    pub fn new(message: &str) -> (e: Error)
        ensures
            e.reason == Reason::Malformed,
            e.message@ == message@,
    {
        Error { reason: Reason::Malformed, message: message.to_owned() }
    }

    /// The error that the 2-SAT oracle gives for `reason`.
    pub fn because(reason: Reason) -> (e: Error)
        ensures
            e.says(reason),
    {
        let message = match reason {
            Reason::NotA2SatFormula => "Not a 2-sat formula".to_owned(),
            Reason::EmptyClauseGiven => "Not satisfiable, empty clause given.".to_owned(),
            Reason::NegationInSameSCC => {
                "Not satisfiable, found a node with a completely connected path to its negation.".to_owned()
            },
            Reason::Malformed => "Error while parsing".to_owned(),
        };
        Error { reason, message }
    }

    /// The message that belongs to each reason.
    pub open spec fn text_of(reason: Reason) -> Seq<char> {
        match reason {
            Reason::NotA2SatFormula => "Not a 2-sat formula"@,
            Reason::EmptyClauseGiven => "Not satisfiable, empty clause given."@,
            Reason::NegationInSameSCC => {
                "Not satisfiable, found a node with a completely connected path to its negation."@
            },
            Reason::Malformed => "Error while parsing"@,
        }
    }

    /// The error is the one that the 2-SAT oracle gives for `reason`.
    pub open spec fn says(self, reason: Reason) -> bool {
        self.reason == reason && self.message@ == Error::text_of(reason)
    }

    /// The message, as an owned string.
    pub fn to_string(&self) -> (s: String)
        ensures
            s@ == self.message@,
    {
        self.message.clone()
    }
}

} // verus!
