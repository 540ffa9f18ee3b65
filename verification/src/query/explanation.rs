//! Reporting that a document is no match of a query.

use crate::error::DocId;
use vstd::prelude::*;

verus! {

/// Why a query could not be answered for a document.
#[derive(Debug)]
pub enum QueryError {
    /// The argument makes no sense for the query; the message says why.
    InvalidArgument(String),
}

/// The decimal digit `d`, for `d` below ten.
pub open spec fn decimal_digit(d: nat) -> char {
    if d == 0 {
        '0'
    } else if d == 1 {
        '1'
    } else if d == 2 {
        '2'
    } else if d == 3 {
        '3'
    } else if d == 4 {
        '4'
    } else if d == 5 {
        '5'
    } else if d == 6 {
        '6'
    } else if d == 7 {
        '7'
    } else if d == 8 {
        '8'
    } else {
        '9'
    }
}

/// The decimal digits of `n`, without sign and without leading zeros.
pub open spec fn decimal(n: nat) -> Seq<char>
    decreases n,
{
    if n < 10 {
        seq![decimal_digit(n)]
    } else {
        decimal(n / 10).push(decimal_digit(n % 10))
    }
}

/// The message that says that the document `doc` is no match.
pub open spec fn does_not_match_message(doc: DocId) -> Seq<char> {
    "Document #("@ + decimal(doc as nat) + ") does not match"@
}

/// Formats the message with `format!`. Trusted: that the standard library
/// prints an unsigned integer as its decimal digits, without sign, padding or
/// leading zeros, and copies the text around the placeholder as it stands.
#[verifier::external_body]
fn format_does_not_match(doc: DocId) -> (message: String)
    ensures
        message@ == does_not_match_message(doc),
{
    format!("Document #({}) does not match", doc)
}

/// The error that says that the document `doc` is no match.
pub fn does_not_match(doc: DocId) -> (e: QueryError)
    ensures
        e matches QueryError::InvalidArgument(message) && message@ == does_not_match_message(doc),
{
    QueryError::InvalidArgument(format_does_not_match(doc))
}

} // verus!
