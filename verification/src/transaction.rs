use vstd::prelude::*;

verus! {

/// The smallest millisecond count that maps to a valid UTC instant:
/// 00:00:00.000 on January 1 of year -262143, the first day chrono's date
/// type can hold.
pub const MIN_TIMESTAMP_MILLIS: i64 = -8_334_601_228_800_000;

/// The largest millisecond count that maps to a valid UTC instant:
/// 23:59:59.999 on December 31 of year 262142, the last day chrono's date
/// type can hold.
pub const MAX_TIMESTAMP_MILLIS: i64 = 8_210_266_876_799_999;

/// Relies on chrono's `DateTime::<Utc>::from_timestamp_millis`, which
/// divides the count into days and returns `Some` exactly when the day
/// number falls within the years `NaiveDate` can represent; in
/// milliseconds that range is `MIN_TIMESTAMP_MILLIS` through
/// `MAX_TIMESTAMP_MILLIS`, both checked against chrono at the boundary by
/// the test suite.
#[verifier::external_body]
fn chrono_accepts_millis(ms: i64) -> (r: bool)
    ensures
        r == (MIN_TIMESTAMP_MILLIS <= ms && ms <= MAX_TIMESTAMP_MILLIS),
{
    chrono::DateTime::<chrono::Utc>::from_timestamp_millis(ms).is_some()
}

/// An instant in UTC with millisecond precision, held as a signed
/// milliseconds-since-epoch count.
#[derive(Clone, Copy, PartialEq, Eq, Structural, Debug)]
pub struct Timestamp {
    pub millis: i64,
}

impl Timestamp {
    /// The millisecond count maps to a valid UTC instant.
    pub open spec fn wf(self) -> bool {
        MIN_TIMESTAMP_MILLIS <= self.millis <= MAX_TIMESTAMP_MILLIS
    }

    /// Builds a timestamp from a milliseconds-since-epoch count, rejecting
    /// counts that do not map to a valid UTC instant.
    pub fn from_millis(ms: i64) -> (r: Option<Timestamp>)
        ensures
            r == if MIN_TIMESTAMP_MILLIS <= ms <= MAX_TIMESTAMP_MILLIS {
                Some(Timestamp { millis: ms })
            } else {
                None::<Timestamp>
            },
    {
        if chrono_accepts_millis(ms) {
            Some(Timestamp { millis: ms })
        } else {
            None
        }
    }
}

/// The kind of a transaction.
#[derive(Clone, Copy, PartialEq, Eq, Structural, Debug)]
pub enum TxType {
    Deposit,
    Transfer,
    Withdrawal,
}

/// The outcome recorded for a transaction.
#[derive(Clone, Copy, PartialEq, Eq, Structural, Debug)]
pub enum TxStatus {
    Success,
    Failure,
    Pending,
}

/// One financial transaction record: the eight logical fields that every
/// on-wire encoding carries, no more and no fewer.
///
/// The description holds arbitrary UTF-8 text without the surrounding quote
/// pair that every encoding adds on the wire.
#[derive(PartialEq, Eq, Debug)]
pub struct Transaction {
    pub tx_id: u64,
    pub tx_type: TxType,
    pub from_user_id: u64,
    pub to_user_id: u64,
    pub amount: i64,
    pub timestamp: Timestamp,
    pub status: TxStatus,
    pub description: Vec<u8>,
}

/// Field-wise equality of two transactions, the notion of "same logical
/// record" used when comparing streams.
pub open spec fn tx_equal(a: Transaction, b: Transaction) -> bool {
    &&& a.tx_id == b.tx_id
    &&& a.tx_type == b.tx_type
    &&& a.from_user_id == b.from_user_id
    &&& a.to_user_id == b.to_user_id
    &&& a.amount == b.amount
    &&& a.timestamp == b.timestamp
    &&& a.status == b.status
    &&& a.description@ == b.description@
}

impl Transaction {
    /// A transaction every encoding can represent: the timestamp maps to a
    /// valid UTC instant, the description is UTF-8 text, and the quoted
    /// description length fits the binary length field.
    pub open spec fn wf(self) -> bool {
        &&& self.timestamp.wf()
        &&& vstd::utf8::valid_utf8(self.description@)
        &&& self.description@.len() + 2 <= u32::MAX
    }
}


/// Decides field-wise equality of two transactions.
pub fn tx_eq(a: &Transaction, b: &Transaction) -> (r: bool)
    ensures
        r == tx_equal(*a, *b),
{
    a.tx_id == b.tx_id && a.tx_type == b.tx_type && a.from_user_id == b.from_user_id
        && a.to_user_id == b.to_user_id && a.amount == b.amount && a.timestamp == b.timestamp
        && a.status == b.status && crate::utils::bytes_eq(
        a.description.as_slice(),
        b.description.as_slice(),
    )
}

} // verus!
