//! Errors of the codec and of the edit engine.

use vstd::prelude::*;

verus! {

#[derive(Clone, Debug, PartialEq, Eq)]
pub enum BlueprintError {
    /// The string holds no `"` before its hash.
    MissingHashDelimiter,
    /// The hash is not 32 characters long.
    HashLength { len: usize },
    /// The hash holds a character that is not a hexadecimal digit.
    HashParse,
    /// The hash does not match the signed body.
    HashMismatch { expected: Vec<u8>, computed: Vec<u8> },
    /// The signed body does not start with `BLUEPRINT:`.
    MalformedPrefix,
    /// No `"` separates the header from the payload.
    MissingPayloadDelimiter,
    /// The header has fewer than 12 comma-separated fields.
    MalformedCsv { fields: usize },
    /// A numeric header field is not a decimal number of its width.
    BadNumber { field: usize },
    /// The payload is not valid base64.
    Base64,
    /// The payload does not decompress.
    Gzip,
    /// The binary stream ends inside a record that starts at `at`.
    Truncated { at: usize },
    /// A text field is not valid UTF-8.
    InvalidText,
    /// More areas, buildings or bytes than the format can hold.
    TooLarge,
    /// A building cannot be replaced by one of another family.
    IncompatibleReplacement { from: u16, to: u16 },
    /// An identifier that is not a 16-bit item or recipe number; holds its bytes.
    UnknownUserIdentifier { text: Vec<u8> },
    /// A replacement entry that is not of the form `From:To`; holds its bytes.
    MalformedReplacement { text: Vec<u8> },
    /// An icon slot outside 0..5.
    IconSlotOutOfRange { slot: u64 },
}

} // verus!
