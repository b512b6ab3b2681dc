//! Errors of a session.

use vstd::prelude::*;

verus! {

/// Why an action is not run.
#[derive(Debug)]
pub enum SessionError {
    /// A format string of an action does not resolve to what it must.
    FormatString { context: String, reason: String },
    /// The helper process does not answer as it must.
    HelperCommunication(String),
    /// A process does not start.
    SubprocessStart { command: String, source: String },
    /// Anything else.
    Runtime(String),
}

/// The model of a session error.
#[verifier::ext_equal]
pub enum SessionFault {
    FormatString { context: Seq<char>, reason: Seq<char> },
    HelperCommunication(Seq<char>),
    SubprocessStart { command: Seq<char>, source: Seq<char> },
    Runtime(Seq<char>),
}

impl View for SessionError {
    type V = SessionFault;

    open spec fn view(&self) -> SessionFault {
        match self {
            SessionError::FormatString { context, reason } => SessionFault::FormatString {
                context: context@,
                reason: reason@,
            },
            SessionError::HelperCommunication(message) => SessionFault::HelperCommunication(message@),
            SessionError::SubprocessStart { command, source } => SessionFault::SubprocessStart {
                command: command@,
                source: source@,
            },
            SessionError::Runtime(message) => SessionFault::Runtime(message@),
        }
    }
}

/// The text of a session error.
pub open spec fn session_fault_text(fault: SessionFault) -> Seq<char> {
    match fault {
        SessionFault::FormatString { context, reason } => "Failed to resolve "@ + context + ": "@ + reason,
        SessionFault::HelperCommunication(message) => "Helper communication error: "@ + message,
        SessionFault::SubprocessStart { command, source } => "Failed to start '"@ + command + "': "@
            + source,
        SessionFault::Runtime(message) => message,
    }
}

/// The model of a result.
pub open spec fn session_outcome<T>(r: Result<T, SessionError>) -> Result<T, SessionFault> {
    match r {
        Ok(v) => Ok(v),
        Err(e) => Err(e@),
    }
}

impl SessionError {
    pub fn to_string(&self) -> (r: String)
        ensures
            r@ == session_fault_text(self@),
    {
        match self {
            SessionError::FormatString { context, reason } => "Failed to resolve ".to_owned().concat(
                context.as_str(),
            ).concat(": ").concat(reason.as_str()),
            SessionError::HelperCommunication(message) => "Helper communication error: ".to_owned().concat(
                message.as_str(),
            ),
            SessionError::SubprocessStart { command, source } => "Failed to start '".to_owned().concat(
                command.as_str(),
            ).concat("': ").concat(source.as_str()),
            SessionError::Runtime(message) => message.clone(),
        }
    }
}

} // verus!
