use vstd::prelude::*;

verus! {

/// Names one of the eight logical fields that every transaction record
/// carries, in every encoding.
#[derive(Clone, Copy, PartialEq, Eq, Structural, Debug)]
pub enum FieldKey {
    TxId,
    TxType,
    FromUserId,
    ToUserId,
    Amount,
    Timestamp,
    Status,
    Description,
}

/// The precise reason a stream was rejected as malformed.
///
/// Error text rendering is left to callers; the library reports structured
/// reasons so that contracts can speak about them exactly.
#[derive(PartialEq, Eq, Debug)]
pub enum FormatReason {
    /// The four magic bytes of a binary record did not match.
    BadMagic(u32),
    /// A binary transaction-type discriminant outside the known range.
    BadTxType(u8),
    /// A binary status discriminant outside the known range.
    BadStatus(u8),
    /// A millisecond timestamp that does not map to a valid UTC instant.
    BadTimestamp(u64),
    /// A description value that is not wrapped in one pair of quotes.
    BadDescription,
    /// Description bytes that are not valid UTF-8.
    NotUtf8,
    /// The CSV header line did not match the expected column list exactly.
    BadHeader,
    /// A CSV row whose field count differs from the header's.
    FieldCount,
    /// A field that should hold a number or an enumeration token, with the
    /// offending token.
    BadToken(FieldKey, Vec<u8>),
    /// A description too long for the binary length field to represent.
    OversizeDescription,
    /// A required key absent from a text block.
    MissingKey(FieldKey),
    /// A key in a text block that is not one of the required eight.
    UnexpectedKey(Vec<u8>),
    /// A read or write was attempted through a dispatcher built from an
    /// unrecognized format name.
    UnsupportedFormat(Vec<u8>),
}

/// The ways an in-memory byte source can fail besides clean exhaustion.
#[derive(Clone, Copy, PartialEq, Eq, Structural, Debug)]
pub enum IoReason {
    /// The stream ended in the middle of a record body.
    TruncatedRecord,
}

/// The error taxonomy shared by every codec.
///
/// `EndOfStream` reports clean exhaustion at a record boundary; it is turned
/// into "no further records" at the read-loop boundary and is not an
/// application-visible failure.
#[derive(PartialEq, Eq, Debug)]
pub enum ParsError {
    /// The backing stream failed for a reason other than clean exhaustion.
    IoError(IoReason),
    /// The byte content did not satisfy the format.
    WrongFormat(FormatReason),
    /// The stream was exhausted exactly at a record boundary.
    EndOfStream,
}

} // verus!
