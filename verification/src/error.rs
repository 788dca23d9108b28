//! The ways in which a conversion fails.

use vstd::prelude::*;
use vstd::string::StringExecFns;

verus! {

/// Why a conversion yields no book.
#[derive(Clone, Copy, Debug, PartialEq, Eq, Structural)]
pub enum ConversionError {
    /// The options are not such as the conversion accepts.
    InvalidConfig,
    /// The archive has no parts, or no page among them.
    MalformedArchive,
    /// The archive is not UTF-8, or a part of it cannot be decoded.
    InvalidEncoding,
    /// An image cannot be decoded. The conversion never ends with this:
    /// such an image is left out and counted.
    ImageDecodeError,
    /// The book does not fit a container.
    PackagingError,
}

/// What an error says of itself.
pub open spec fn message_of(e: ConversionError) -> Seq<char> {
    match e {
        ConversionError::InvalidConfig => "invalid configuration"@,
        ConversionError::MalformedArchive => "malformed archive"@,
        ConversionError::InvalidEncoding => "invalid encoding"@,
        ConversionError::ImageDecodeError => "image cannot be decoded"@,
        ConversionError::PackagingError => "book cannot be packaged"@,
    }
}

impl ConversionError {
    /// Says what went wrong.
    pub fn message(&self) -> (s: String)
        ensures
            s@ == message_of(*self),
    {
        match self {
            ConversionError::InvalidConfig => String::from_str("invalid configuration"),
            ConversionError::MalformedArchive => String::from_str("malformed archive"),
            ConversionError::InvalidEncoding => String::from_str("invalid encoding"),
            ConversionError::ImageDecodeError => String::from_str("image cannot be decoded"),
            ConversionError::PackagingError => String::from_str("book cannot be packaged"),
        }
    }
}

} // verus!
