//! The failure kinds shared by every layer of the database.
//!
//! Each public operation returns `Result<T, Error>`; other components match on
//! the kind, so the set is closed and stable.

use vstd::prelude::*;

verus! {

/// A failure kind, carrying at most one explanatory string.
#[derive(Clone, Debug, PartialEq)]
pub enum Error {
    /// There was a problem with a datastore transaction.
    Tx(String),
    /// There was an error when starting a new datastore transaction.
    TxFailure,
    /// The transaction was already cancelled or committed.
    TxFinished,
    /// The current transaction was created as read-only.
    TxReadonly,
    /// The conditional value in the request was not equal.
    TxConditionNotMet,
    /// The key being inserted in the transaction already exists.
    TxKeyAlreadyExists,
    /// The query text could not be parsed.
    Parse(String),
    /// A value failed validation.
    Value(String),
}

/// The explanatory text of an error, as a sequence of characters.
pub open spec fn spec_message(e: Error) -> Seq<char> {
    match e {
        Error::Tx(m) => "There was a problem with a datastore transaction: "@ + m@,
        Error::TxFailure => "There was an error when starting a new datastore transaction"@,
        Error::TxFinished => "Couldn't update a finished transaction"@,
        Error::TxReadonly => "Couldn't write to a read only transaction"@,
        Error::TxConditionNotMet => "Value being checked was not correct"@,
        Error::TxKeyAlreadyExists => "The key being inserted already exists"@,
        Error::Parse(m) => m@,
        Error::Value(m) => m@,
    }
}

impl Error {
    /// A human-readable description of the error.
    pub fn message(&self) -> (r: String)
        ensures
            r@ == spec_message(*self),
    {
        match self {
            Error::Tx(m) => {
                let s = String::from_str("There was a problem with a datastore transaction: ");
                s.concat(m.as_str())
            },
            Error::TxFailure => String::from_str(
                "There was an error when starting a new datastore transaction",
            ),
            Error::TxFinished => String::from_str("Couldn't update a finished transaction"),
            Error::TxReadonly => String::from_str("Couldn't write to a read only transaction"),
            Error::TxConditionNotMet => String::from_str("Value being checked was not correct"),
            Error::TxKeyAlreadyExists => String::from_str("The key being inserted already exists"),
            Error::Parse(m) => m.clone(),
            Error::Value(m) => m.clone(),
        }
    }
}

} // verus!
