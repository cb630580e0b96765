//! The ways in which a request or a storage operation fails.

use vstd::prelude::*;

verus! {

/// Why a request, a replay or a table operation failed.
#[derive(Clone, Copy, Debug, PartialEq, Eq, Structural)]
pub enum Error {
    /// The request text is not JSON.
    BadJson,
    /// The request is JSON but not a command.
    BadRequest,
    /// No value is stored under the key.
    BadKey,
    /// An operand has a type that the operation does not take.
    BadType,
    /// An aggregate met an element that is no number, or has no finite result.
    BadNumber,
    /// `first` or `last` of an array without elements.
    EmptyArray,
    /// The journal did not take the record, so the store was left as it was.
    BadWrite,
    /// The storage driver failed.
    BadIo,
    /// A journal line is not a record.
    BadLine,
    /// No table has the name.
    TableNotFound,
}

impl Error {
    /// A short text for logs and replies.
    pub fn message(&self) -> (s: &'static str)
        ensures
            s@ == match *self {
                Error::BadJson => "bad json"@,
                Error::BadRequest => "bad request"@,
                Error::BadKey => "bad key"@,
                Error::BadType => "bad type"@,
                Error::BadNumber => "bad number"@,
                Error::EmptyArray => "empty array"@,
                Error::BadWrite => "bad write"@,
                Error::BadIo => "bad io"@,
                Error::BadLine => "bad line"@,
                Error::TableNotFound => "cannot find table"@,
            },
    {
        match self {
            Error::BadJson => "bad json",
            Error::BadRequest => "bad request",
            Error::BadKey => "bad key",
            Error::BadType => "bad type",
            Error::BadNumber => "bad number",
            Error::EmptyArray => "empty array",
            Error::BadWrite => "bad write",
            Error::BadIo => "bad io",
            Error::BadLine => "bad line",
            Error::TableNotFound => "cannot find table",
        }
    }
}

pub type Res<T> = Result<T, Error>;

/// Whether an operation without a result ended as the model did: well, or with its error.
pub open spec fn ends_as<T>(r: Res<()>, model: Result<T, Error>) -> bool {
    match r {
        Ok(_) => model is Ok,
        Err(e) => model is Err && model->Err_0 == e,
    }
}

} // verus!
