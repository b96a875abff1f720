use vstd::prelude::*;

verus! {

/// The failures that the memory bank reports, each with a human-readable message.
#[derive(Clone, Debug)]
pub enum CliError {
    NotInitialized(String),
    NotFound(String),
    Validation(String),
    Storage(String),
    Database(String),
    Replay(String),
}

pub type CliResult<T> = Result<T, CliError>;

/// The stable code of each kind of error.
pub open spec fn code_text(e: CliError) -> Seq<char> {
    match e {
        CliError::NotInitialized(_) => "NOT_INITIALIZED"@,
        CliError::NotFound(_) => "NOT_FOUND"@,
        CliError::Validation(_) => "VALIDATION"@,
        CliError::Storage(_) => "STORAGE"@,
        CliError::Database(_) => "DATABASE"@,
        CliError::Replay(_) => "REPLAY"@,
    }
}

/// The message that an error carries.
pub open spec fn message_text(e: CliError) -> Seq<char> {
    match e {
        CliError::NotInitialized(m) => m@,
        CliError::NotFound(m) => m@,
        CliError::Validation(m) => m@,
        CliError::Storage(m) => m@,
        CliError::Database(m) => m@,
        CliError::Replay(m) => m@,
    }
}

/// The line that the command line prints for an error: `ERROR: CODE message`.
pub open spec fn rendered_error(e: CliError) -> Seq<char> {
    "ERROR: "@ + code_text(e) + " "@ + message_text(e)
}

impl CliError {
    pub fn code(&self) -> (r: &'static str)
        ensures
            r@ == code_text(*self),
    {
        match self {
            CliError::NotInitialized(_) => "NOT_INITIALIZED",
            CliError::NotFound(_) => "NOT_FOUND",
            CliError::Validation(_) => "VALIDATION",
            CliError::Storage(_) => "STORAGE",
            CliError::Database(_) => "DATABASE",
            CliError::Replay(_) => "REPLAY",
        }
    }

    pub fn message(&self) -> (r: &str)
        ensures
            r@ == message_text(*self),
    {
        match self {
            CliError::NotInitialized(m) => m.as_str(),
            CliError::NotFound(m) => m.as_str(),
            CliError::Validation(m) => m.as_str(),
            CliError::Storage(m) => m.as_str(),
            CliError::Database(m) => m.as_str(),
            CliError::Replay(m) => m.as_str(),
        }
    }

    /// The printed form of the error, `ERROR: CODE message`.
    pub fn render(&self) -> (r: String)
        ensures
            r@ == rendered_error(*self),
    {
        let mut out = String::from_str("ERROR: ");
        out.append(self.code());
        out.append(" ");
        out.append(self.message());
        out
    }
}

/// A validation error with a fixed message.
pub fn validation(message: &str) -> (e: CliError)
    ensures
        e matches CliError::Validation(m) && m@ == message@,
{
    CliError::Validation(String::from_str(message))
}

} // verus!
