//! What a request can be refused with.

use vstd::prelude::*;

verus! {

/// Why a request was refused.
#[derive(Debug)]
pub enum AppError {
    /// What was asked for is not there.
    NotFound,
    /// The request does not fit what is stored; the code tells how.
    Invalid { code: String, message: String },
    /// The request is not well formed.
    Validation(String),
    /// A list was asked for from before its beginning.
    NegativeOffset,
    /// A list of a negative length was asked for.
    NegativeLimit,
}

/// What an [`AppError`] says.
pub enum ErrorModel {
    NotFound,
    Invalid { code: Seq<char>, message: Seq<char> },
    Validation(Seq<char>),
    NegativeOffset,
    NegativeLimit,
}

impl View for AppError {
    type V = ErrorModel;

    open spec fn view(&self) -> ErrorModel {
        match *self {
            AppError::NotFound => ErrorModel::NotFound,
            AppError::Invalid { code, message } => ErrorModel::Invalid {
                code: code@,
                message: message@,
            },
            AppError::Validation(message) => ErrorModel::Validation(message@),
            AppError::NegativeOffset => ErrorModel::NegativeOffset,
            AppError::NegativeLimit => ErrorModel::NegativeLimit,
        }
    }
}

impl AppError {
    /// A request that does not fit what is stored.
    pub fn invalid(code: &str, message: &str) -> (r: AppError)
        ensures
            r@ == (ErrorModel::Invalid { code: code@, message: message@ }),
    {
        AppError::Invalid { code: code.to_owned(), message: message.to_owned() }
    }
}

} // verus!
