//! The error type shared by every fallible operation of the cache.

use vstd::prelude::*;
use vstd::string::*;

verus! {

/// `std::io::Error`, carried through as it is.
#[verifier::external_type_specification]
#[verifier::external_body]
pub struct ExIoError(std::io::Error);

/// The error of `bson` for a document that cannot be decoded.
#[verifier::external_type_specification]
#[verifier::external_body]
pub struct ExBsonDeError(bson::de::Error);

/// The error of `bson` for a document that cannot be encoded.
#[verifier::external_type_specification]
#[verifier::external_body]
pub struct ExBsonSerError(bson::ser::Error);

/// The error of `sled`.
#[verifier::external_type_specification]
#[verifier::external_body]
pub struct ExSledError(sled::Error);

/// What can go wrong in a cache operation.
#[derive(Debug)]
pub enum ForcepError {
    /// A filesystem step failed for a reason other than a missing path.
    Io(std::io::Error),
    /// A stored metadata record could not be decoded.
    MetaDe(bson::de::Error),
    /// A metadata record could not be encoded.
    MetaSer(bson::ser::Error),
    /// The metadata store itself reported a failure.
    MetaDb(sled::Error),
    /// The blob was there but its metadata record was not: the two stores have drifted.
    MetaNotFound,
    /// No entry is stored under the key.
    NotFound,
}

/// Writes an I/O error out through its `Display`.
#[verifier::external_body]
fn io_error_text(e: &std::io::Error) -> String {
    format!("{}", e)
}

/// Writes a decoding error out through its `Display`.
#[verifier::external_body]
fn de_error_text(e: &bson::de::Error) -> String {
    format!("{}", e)
}

/// Writes an encoding error out through its `Display`.
#[verifier::external_body]
fn ser_error_text(e: &bson::ser::Error) -> String {
    format!("{}", e)
}

/// Writes an error of the store out through its `Display`.
#[verifier::external_body]
fn db_error_text(e: &sled::Error) -> String {
    format!("{}", e)
}

/// How the description of an error begins. For the two kinds of "not found" it is the
/// whole description.
pub open spec fn message_head(e: ForcepError) -> Seq<char> {
    match e {
        ForcepError::Io(_) => "an I/O error occurred: "@,
        ForcepError::MetaDe(_) => "there was a problem deserializing metadata: "@,
        ForcepError::MetaSer(_) => "there was a problem serializing metadata: "@,
        ForcepError::MetaDb(_) => "an error with the metadata database occurred: "@,
        ForcepError::MetaNotFound =>
            "the entry for the key provided was found, but the metadata was strangely not present"@,
        ForcepError::NotFound => "the entry for the key provided was not found"@,
    }
}

impl ForcepError {
    /// Describes the error: what kind it is, then what the underlying error says of
    /// itself, where there is one.
    pub fn message(&self) -> (text: String)
        ensures
            message_head(*self).is_prefix_of(text@),
            self is MetaNotFound || self is NotFound ==> text@ == message_head(*self),
    {
        match self {
            ForcepError::Io(e) => String::from_str("an I/O error occurred: ").concat(
                io_error_text(e).as_str(),
            ),
            ForcepError::MetaDe(e) => String::from_str(
                "there was a problem deserializing metadata: ",
            ).concat(de_error_text(e).as_str()),
            ForcepError::MetaSer(e) => String::from_str(
                "there was a problem serializing metadata: ",
            ).concat(ser_error_text(e).as_str()),
            ForcepError::MetaDb(e) => String::from_str(
                "an error with the metadata database occurred: ",
            ).concat(db_error_text(e).as_str()),
            ForcepError::MetaNotFound => String::from_str(
                "the entry for the key provided was found, but the metadata was strangely not present",
            ),
            ForcepError::NotFound => String::from_str(
                "the entry for the key provided was not found",
            ),
        }
    }
}

} // verus!
