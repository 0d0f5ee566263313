//! A node that records its input and passes it on.

use vstd::prelude::*;

use crate::nodes::NodeError;
use crate::value::Value;

verus! {

/// How severe a record is.
#[derive(Clone, Copy, Debug, PartialEq, Eq, Structural)]
pub enum Level {
    Trace,
    Debug,
    Info,
    Warn,
    Error,
}

/// A node that records the text it is given at a fixed severity.
pub struct Log {
    pub level: Level,
}

impl Default for Log {
    fn default() -> (r: Self)
        ensures
            r.level == Level::Info,
    {
        Log { level: Level::Info }
    }
}

impl Log {
    /// A log node that records at `level`.
    pub fn new(level: Level) -> (r: Self)
        ensures
            r.level == level,
    {
        Log { level }
    }

    /// Runs the node on `input`. Text is accepted: the result is the text
    /// to record, at `self.level`, and the value passed on, which is the
    /// input itself. A value of any other kind is a conversion error that
    /// carries the value, and there is nothing to record.
    pub fn run(&self, input: Value) -> (r: Result<(String, Value), NodeError>)
        ensures
            input is String ==> r == Ok::<(String, Value), NodeError>((input->String_0, input)),
            !(input is String) ==> r == Err::<(String, Value), NodeError>(NodeError::ConversionError(input)),
    {
        let text = match &input {
            Value::String(message) => Some(message.clone()),
            _ => None,
        };
        match text {
            Some(message) => Ok((message, input)),
            None => Err(NodeError::ConversionError(input)),
        }
    }
}

} // verus!
