//! The errors that reading and writing can end in.
use vstd::prelude::*;

verus! {

/// Declares `std::io::Error` to Verus; values of it are only carried, never looked into.
#[verifier::external_type_specification]
#[verifier::external_body]
pub struct ExIoError(std::io::Error);

/// Possible errors when reading/writing
#[derive(Debug)]
pub enum SpError {
    /// Could not read bytes from reader
    ReadFailed(std::io::Error),
    /// The data we attempted to decode did not contain a valid enum variant
    UnknownEnumVariant,
    /// There is not enough space to write T into the writer or to read T from the reader
    NotEnoughSpace,
    /// An annotated `len` field's type is too small to fit the number of elements
    CountFieldOverflow,
    /// The data contained enough bytes but the contents were invalid
    InvalidBytes,
    /// A Rust reference cannot be created as the data is misaligned
    BadAlignment,
}

impl SpError {
    /// The human readable description of the error.
    pub fn message(&self) -> (r: String)
        ensures
            match self {
                SpError::ReadFailed(_) => r@.len() >= 28 && r@.subrange(0, 28)
                    == "Failed to read more bytes : "@,
                SpError::UnknownEnumVariant => r@ == "Encountered invalid enum variant ID"@,
                SpError::NotEnoughSpace => r@
                    == "Not enough bytes in the buffer to parse wanted type"@,
                SpError::CountFieldOverflow => r@
                    == "The `len` field's type is too small for the number of items !"@,
                SpError::InvalidBytes => r@ == "Failed to parse the bytes into the wanted type"@,
                SpError::BadAlignment => r@ == "Input bytes are misaligned"@,
            },
    {
        broadcast use vstd::string::to_string_from_display_ensures_for_str;

        match self {
            SpError::ReadFailed(e) => {
                let prefix = "Failed to read more bytes : ";
                proof {
                    reveal_strlit("Failed to read more bytes : ");
                }
                let mut r = prefix.to_string();
                let text = e.to_string();
                r.append(text.as_str());
                assert(r@.subrange(0, 28) =~= prefix@);
                r
            },
            SpError::UnknownEnumVariant => "Encountered invalid enum variant ID".to_string(),
            SpError::NotEnoughSpace => "Not enough bytes in the buffer to parse wanted type".to_string(),
            SpError::CountFieldOverflow => "The `len` field's type is too small for the number of items !".to_string(),
            SpError::InvalidBytes => "Failed to parse the bytes into the wanted type".to_string(),
            SpError::BadAlignment => "Input bytes are misaligned".to_string(),
        }
    }

    /// The input/output error underneath, if there is one.
    pub fn read_failure(&self) -> (r: Option<&std::io::Error>)
        ensures
            match self {
                SpError::ReadFailed(e) => r == Some(e),
                _ => r is None,
            },
    {
        match self {
            SpError::ReadFailed(e) => Some(e),
            _ => None,
        }
    }
}

} // verus!
