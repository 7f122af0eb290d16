//! The errors of this crate.

use rusqlite::Error as SqlError;
use vstd::prelude::*;
use vstd::string::to_string_from_display_ensures;
use wicked_estate_core::Error as EngineError;

verus! {

/// The error type of `rusqlite`, carried as an opaque value.
#[verifier::external_type_specification]
#[verifier::external_body]
pub struct ExSqlError(SqlError);

/// The error type of the engines, carried as an opaque value.
#[verifier::external_type_specification]
#[verifier::external_body]
pub struct ExEngineError(EngineError);

/// Why a read or a write failed.
#[derive(Debug)]
pub enum Error {
    /// The cross-edge database refused; the text is `xedge: ` and the database's own message.
    Invalid(String),
    /// An engine failed; its own error is handed on untouched.
    Engine(EngineError),
    /// A node would have to be placed one step beyond the largest depth there is.
    DepthOverflow,
}

impl Error {
    /// Whether this is how a failure `e` of the cross-edge database is reported.
    pub open spec fn reports(self, e: SqlError) -> bool {
        &&& self is Invalid
        &&& exists|message: String|
            {
                &&& #[trigger] to_string_from_display_ensures(&e, message)
                &&& self->Invalid_0@ == "xedge: "@ + message@
            }
    }
}

impl Error {
    /// Whether this reports some failure of the cross-edge database.
    pub open spec fn of_database(self) -> bool {
        exists|e: SqlError| self.reports(e)
    }
}

/// Reports a failure of the cross-edge database, with its message behind the prefix `xedge: `.
pub fn map_err(e: SqlError) -> (out: Error)
    ensures
        out.reports(e),
{
    let message: String = e.to_string();
    let mut text: String = "xedge: ".to_string();
    text.append(message.as_str());
    Error::Invalid(text)
}

/// A failure of the database is reported with its own message, as the standard library renders it,
/// behind the prefix `xedge: `.
pub proof fn law_report_is_the_message(error: Error, e: SqlError)
    requires
        error.reports(e),
    ensures
        exists|message: String|
            {
                &&& #[trigger] to_string_from_display_ensures(&e, message)
                &&& error matches Error::Invalid(text) && text@ == "xedge: "@ + message@
            },
{
}

} // verus!
