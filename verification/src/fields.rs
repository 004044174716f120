use vstd::prelude::*;
use crate::error::FieldKey;
use crate::error::FormatReason;
use crate::error::ParsError;
use crate::numbers::spec_parse_u64;
use crate::numbers::spec_parse_i64;
use crate::numbers::spec_dec_digits;
use crate::numbers::spec_i64_dec;
use crate::transaction::MIN_TIMESTAMP_MILLIS;
use crate::transaction::MAX_TIMESTAMP_MILLIS;
use crate::transaction::Transaction;
use crate::transaction::TxStatus;
use crate::transaction::TxType;
use crate::utils::spec_remove_quotes;
use crate::utils::spec_quoted;
use crate::utils::QUOTE;
use vstd::utf8::valid_utf8;
use crate::numbers::parse_u64;
use crate::numbers::parse_i64;
use crate::transaction::Timestamp;
use crate::utils::remove_quotes;
use crate::utils::check_utf8;

verus! {

/// The column name of a field, as it stands in the header.
pub open spec fn spec_key_token(k: FieldKey) -> Seq<u8> {
    match k {
        FieldKey::TxId => seq!['T' as u8, 'X' as u8, '_' as u8, 'I' as u8, 'D' as u8],
        FieldKey::TxType => seq!['T' as u8, 'X' as u8, '_' as u8, 'T' as u8, 'Y' as u8, 'P' as u8, 'E' as u8],
        FieldKey::FromUserId => seq!['F' as u8, 'R' as u8, 'O' as u8, 'M' as u8, '_' as u8, 'U' as u8, 'S' as u8, 'E' as u8, 'R' as u8, '_' as u8, 'I' as u8, 'D' as u8],
        FieldKey::ToUserId => seq!['T' as u8, 'O' as u8, '_' as u8, 'U' as u8, 'S' as u8, 'E' as u8, 'R' as u8, '_' as u8, 'I' as u8, 'D' as u8],
        FieldKey::Amount => seq!['A' as u8, 'M' as u8, 'O' as u8, 'U' as u8, 'N' as u8, 'T' as u8],
        FieldKey::Timestamp => seq!['T' as u8, 'I' as u8, 'M' as u8, 'E' as u8, 'S' as u8, 'T' as u8, 'A' as u8, 'M' as u8, 'P' as u8],
        FieldKey::Status => seq!['S' as u8, 'T' as u8, 'A' as u8, 'T' as u8, 'U' as u8, 'S' as u8],
        FieldKey::Description => seq!['D' as u8, 'E' as u8, 'S' as u8, 'C' as u8, 'R' as u8, 'I' as u8, 'P' as u8, 'T' as u8, 'I' as u8, 'O' as u8, 'N' as u8],
    }
}

/// The required header: the eight column names in their fixed order.
pub open spec fn spec_header_fields() -> Seq<Seq<u8>> {
    seq![
        spec_key_token(FieldKey::TxId),
        spec_key_token(FieldKey::TxType),
        spec_key_token(FieldKey::FromUserId),
        spec_key_token(FieldKey::ToUserId),
        spec_key_token(FieldKey::Amount),
        spec_key_token(FieldKey::Timestamp),
        spec_key_token(FieldKey::Status),
        spec_key_token(FieldKey::Description),
    ]
}

/// The token a transaction type is written as.
pub open spec fn spec_tx_type_token(t: TxType) -> Seq<u8> {
    match t {
        TxType::Deposit => seq!['D' as u8, 'E' as u8, 'P' as u8, 'O' as u8, 'S' as u8, 'I' as u8, 'T' as u8],
        TxType::Transfer => seq!['T' as u8, 'R' as u8, 'A' as u8, 'N' as u8, 'S' as u8, 'F' as u8, 'E' as u8, 'R' as u8],
        TxType::Withdrawal => seq!['W' as u8, 'I' as u8, 'T' as u8, 'H' as u8, 'D' as u8, 'R' as u8, 'A' as u8, 'W' as u8, 'A' as u8, 'L' as u8],
    }
}

/// The token a status is written as.
pub open spec fn spec_status_token(s: TxStatus) -> Seq<u8> {
    match s {
        TxStatus::Success => seq!['S' as u8, 'U' as u8, 'C' as u8, 'C' as u8, 'E' as u8, 'S' as u8, 'S' as u8],
        TxStatus::Failure => seq!['F' as u8, 'A' as u8, 'I' as u8, 'L' as u8, 'U' as u8, 'R' as u8, 'E' as u8],
        TxStatus::Pending => seq!['P' as u8, 'E' as u8, 'N' as u8, 'D' as u8, 'I' as u8, 'N' as u8, 'G' as u8],
    }
}

/// The transaction type a token denotes, if any.
pub open spec fn spec_tx_type_of_token(s: Seq<u8>) -> Option<TxType> {
    if s == spec_tx_type_token(TxType::Deposit) {
        Some(TxType::Deposit)
    } else if s == spec_tx_type_token(TxType::Transfer) {
        Some(TxType::Transfer)
    } else if s == spec_tx_type_token(TxType::Withdrawal) {
        Some(TxType::Withdrawal)
    } else {
        None
    }
}

/// The status a token denotes, if any.
pub open spec fn spec_status_of_token(s: Seq<u8>) -> Option<TxStatus> {
    if s == spec_status_token(TxStatus::Success) {
        Some(TxStatus::Success)
    } else if s == spec_status_token(TxStatus::Failure) {
        Some(TxStatus::Failure)
    } else if s == spec_status_token(TxStatus::Pending) {
        Some(TxStatus::Pending)
    } else {
        None
    }
}

/// Writes the column name of a field.
pub fn key_token(k: FieldKey) -> (r: Vec<u8>)
    ensures
        r@ == spec_key_token(k),
{
    let v: Vec<u8> = match k {
        FieldKey::TxId => vec!['T' as u8, 'X' as u8, '_' as u8, 'I' as u8, 'D' as u8],
        FieldKey::TxType => vec!['T' as u8, 'X' as u8, '_' as u8, 'T' as u8, 'Y' as u8, 'P' as u8, 'E' as u8],
        FieldKey::FromUserId => vec!['F' as u8, 'R' as u8, 'O' as u8, 'M' as u8, '_' as u8, 'U' as u8, 'S' as u8, 'E' as u8, 'R' as u8, '_' as u8, 'I' as u8, 'D' as u8],
        FieldKey::ToUserId => vec!['T' as u8, 'O' as u8, '_' as u8, 'U' as u8, 'S' as u8, 'E' as u8, 'R' as u8, '_' as u8, 'I' as u8, 'D' as u8],
        FieldKey::Amount => vec!['A' as u8, 'M' as u8, 'O' as u8, 'U' as u8, 'N' as u8, 'T' as u8],
        FieldKey::Timestamp => vec!['T' as u8, 'I' as u8, 'M' as u8, 'E' as u8, 'S' as u8, 'T' as u8, 'A' as u8, 'M' as u8, 'P' as u8],
        FieldKey::Status => vec!['S' as u8, 'T' as u8, 'A' as u8, 'T' as u8, 'U' as u8, 'S' as u8],
        FieldKey::Description => vec!['D' as u8, 'E' as u8, 'S' as u8, 'C' as u8, 'R' as u8, 'I' as u8, 'P' as u8, 'T' as u8, 'I' as u8, 'O' as u8, 'N' as u8],
    };
    proof {
        assert(v@ =~= spec_key_token(k));
    }
    v
}

/// Writes the token of a transaction type.
pub fn tx_type_token(t: TxType) -> (r: Vec<u8>)
    ensures
        r@ == spec_tx_type_token(t),
{
    let v: Vec<u8> = match t {
        TxType::Deposit => vec!['D' as u8, 'E' as u8, 'P' as u8, 'O' as u8, 'S' as u8, 'I' as u8, 'T' as u8],
        TxType::Transfer => vec!['T' as u8, 'R' as u8, 'A' as u8, 'N' as u8, 'S' as u8, 'F' as u8, 'E' as u8, 'R' as u8],
        TxType::Withdrawal => vec!['W' as u8, 'I' as u8, 'T' as u8, 'H' as u8, 'D' as u8, 'R' as u8, 'A' as u8, 'W' as u8, 'A' as u8, 'L' as u8],
    };
    proof {
        assert(v@ =~= spec_tx_type_token(t));
    }
    v
}

/// Writes the token of a status.
pub fn status_token(s: TxStatus) -> (r: Vec<u8>)
    ensures
        r@ == spec_status_token(s),
{
    let v: Vec<u8> = match s {
        TxStatus::Success => vec!['S' as u8, 'U' as u8, 'C' as u8, 'C' as u8, 'E' as u8, 'S' as u8, 'S' as u8],
        TxStatus::Failure => vec!['F' as u8, 'A' as u8, 'I' as u8, 'L' as u8, 'U' as u8, 'R' as u8, 'E' as u8],
        TxStatus::Pending => vec!['P' as u8, 'E' as u8, 'N' as u8, 'D' as u8, 'I' as u8, 'N' as u8, 'G' as u8],
    };
    proof {
        assert(v@ =~= spec_status_token(s));
    }
    v
}

/// Reads a transaction type from its token.
pub fn tx_type_of_token(tok: &Vec<u8>) -> (r: Option<TxType>)
    ensures
        r == spec_tx_type_of_token(tok@),
{
    let dep = tx_type_token(TxType::Deposit);
    let tra = tx_type_token(TxType::Transfer);
    let wit = tx_type_token(TxType::Withdrawal);
    if crate::utils::bytes_eq(tok.as_slice(), dep.as_slice()) {
        Some(TxType::Deposit)
    } else if crate::utils::bytes_eq(tok.as_slice(), tra.as_slice()) {
        Some(TxType::Transfer)
    } else if crate::utils::bytes_eq(tok.as_slice(), wit.as_slice()) {
        Some(TxType::Withdrawal)
    } else {
        None
    }
}

/// Reads a status from its token.
pub fn status_of_token(tok: &Vec<u8>) -> (r: Option<TxStatus>)
    ensures
        r == spec_status_of_token(tok@),
{
    let suc = status_token(TxStatus::Success);
    let fai = status_token(TxStatus::Failure);
    let pen = status_token(TxStatus::Pending);
    if crate::utils::bytes_eq(tok.as_slice(), suc.as_slice()) {
        Some(TxStatus::Success)
    } else if crate::utils::bytes_eq(tok.as_slice(), fai.as_slice()) {
        Some(TxStatus::Failure)
    } else if crate::utils::bytes_eq(tok.as_slice(), pen.as_slice()) {
        Some(TxStatus::Pending)
    } else {
        None
    }
}

/// A flaw in the interpretation of a row's fields, carrying what the
/// matching error must name.
pub enum RowErr {
    /// The number of fields does not match the header.
    Count,
    /// A numeric or enumeration field whose token is not recognized.
    BadToken(FieldKey, Seq<u8>),
    /// A millisecond count outside the valid range.
    BadTs(u64),
    /// A description without its quote pair.
    BadDesc,
    /// A description too long for the binary length field.
    Oversize,
    /// Description text that is not UTF-8.
    NotUtf8,
}

/// Whether an error names exactly the flaw found in a row.
pub open spec fn wrong_format_matches(e: ParsError, err: RowErr) -> bool {
    match err {
        RowErr::Count => e == ParsError::WrongFormat(FormatReason::FieldCount),
        RowErr::BadToken(k, tokv) => e matches ParsError::WrongFormat(
            FormatReason::BadToken(k2, tok),
        ) && k2 == k && tok@ == tokv,
        RowErr::BadTs(m) => e == ParsError::WrongFormat(FormatReason::BadTimestamp(m)),
        RowErr::BadDesc => e == ParsError::WrongFormat(FormatReason::BadDescription),
        RowErr::Oversize => e == ParsError::WrongFormat(FormatReason::OversizeDescription),
        RowErr::NotUtf8 => e == ParsError::WrongFormat(FormatReason::NotUtf8),
    }
}

/// The first flaw in a row's fields, in the order the checks run, or
/// nothing when the fields denote a transaction.
pub open spec fn spec_row_check(f: Seq<Seq<u8>>) -> Option<RowErr> {
    if f.len() != 8 {
        Some(RowErr::Count)
    } else if spec_parse_u64(f[0]) is None {
        Some(RowErr::BadToken(FieldKey::TxId, f[0]))
    } else if spec_tx_type_of_token(f[1]) is None {
        Some(RowErr::BadToken(FieldKey::TxType, f[1]))
    } else if spec_parse_u64(f[2]) is None {
        Some(RowErr::BadToken(FieldKey::FromUserId, f[2]))
    } else if spec_parse_u64(f[3]) is None {
        Some(RowErr::BadToken(FieldKey::ToUserId, f[3]))
    } else if spec_parse_i64(f[4]) is None {
        Some(RowErr::BadToken(FieldKey::Amount, f[4]))
    } else if spec_parse_u64(f[5]) is None {
        Some(RowErr::BadToken(FieldKey::Timestamp, f[5]))
    } else if !(MIN_TIMESTAMP_MILLIS <= spec_parse_u64(f[5])->Some_0 as i64
        <= MAX_TIMESTAMP_MILLIS) {
        Some(RowErr::BadTs(spec_parse_u64(f[5])->Some_0))
    } else if spec_status_of_token(f[6]) is None {
        Some(RowErr::BadToken(FieldKey::Status, f[6]))
    } else if !spec_quoted(f[7]) {
        Some(RowErr::BadDesc)
    } else if f[7].len() > u32::MAX {
        Some(RowErr::Oversize)
    } else if !valid_utf8(spec_remove_quotes(f[7])) {
        Some(RowErr::NotUtf8)
    } else {
        None
    }
}

/// The transaction a flawless row denotes.
pub open spec fn tx_matches_fields(tx: Transaction, f: Seq<Seq<u8>>) -> bool {
    &&& spec_parse_u64(f[0]) == Some(tx.tx_id)
    &&& spec_tx_type_of_token(f[1]) == Some(tx.tx_type)
    &&& spec_parse_u64(f[2]) == Some(tx.from_user_id)
    &&& spec_parse_u64(f[3]) == Some(tx.to_user_id)
    &&& spec_parse_i64(f[4]) == Some(tx.amount)
    &&& (spec_parse_u64(f[5]) matches Some(ms) && tx.timestamp.millis == ms as i64)
    &&& spec_status_of_token(f[6]) == Some(tx.status)
    &&& tx.description@ == spec_remove_quotes(f[7])
}

/// The eight tokens a transaction is written as, in column order.
pub open spec fn spec_fields_of_tx(tx: Transaction) -> Seq<Seq<u8>> {
    seq![
        spec_dec_digits(tx.tx_id as nat),
        spec_tx_type_token(tx.tx_type),
        spec_dec_digits(tx.from_user_id as nat),
        spec_dec_digits(tx.to_user_id as nat),
        spec_i64_dec(tx.amount),
        spec_dec_digits((tx.timestamp.millis as u64) as nat),
        spec_status_token(tx.status),
        seq![QUOTE] + tx.description@ + seq![QUOTE],
    ]
}


/// Interprets the eight field tokens of one record under the fixed field
/// order, rejecting the first flaw found.
pub fn fields_to_transaction(fields: &Vec<Vec<u8>>) -> (r: Result<Transaction, ParsError>)
    ensures
    match spec_row_check(fields.deep_view()) {
        Some(err) => r matches Err(e) && wrong_format_matches(e, err),
        None => r matches Ok(tx) && tx_matches_fields(tx, fields.deep_view()) && tx.wf(),
    },
{
    let ghost f = fields.deep_view();
    proof {
        assert(forall|i: int| 0 <= i < fields@.len() ==> fields@[i]@ == #[trigger] f[i]);
    }
    if fields.len() != 8 {
        return Err(ParsError::WrongFormat(FormatReason::FieldCount));
    }
    let tx_id = match parse_u64(&fields[0]) {
        Some(v) => v,
        None => {
            return Err(
                ParsError::WrongFormat(
                    FormatReason::BadToken(FieldKey::TxId, fields[0].clone()),
                ),
            );
        },
    };
    let tx_type = match tx_type_of_token(&fields[1]) {
        Some(t) => t,
        None => {
            return Err(
                ParsError::WrongFormat(
                    FormatReason::BadToken(FieldKey::TxType, fields[1].clone()),
                ),
            );
        },
    };
    let from_user_id = match parse_u64(&fields[2]) {
        Some(v) => v,
        None => {
            return Err(
                ParsError::WrongFormat(
                    FormatReason::BadToken(FieldKey::FromUserId, fields[2].clone()),
                ),
            );
        },
    };
    let to_user_id = match parse_u64(&fields[3]) {
        Some(v) => v,
        None => {
            return Err(
                ParsError::WrongFormat(
                    FormatReason::BadToken(FieldKey::ToUserId, fields[3].clone()),
                ),
            );
        },
    };
    let amount = match parse_i64(&fields[4]) {
        Some(v) => v,
        None => {
            return Err(
                ParsError::WrongFormat(
                    FormatReason::BadToken(FieldKey::Amount, fields[4].clone()),
                ),
            );
        },
    };
    let millis = match parse_u64(&fields[5]) {
        Some(v) => v,
        None => {
            return Err(
                ParsError::WrongFormat(
                    FormatReason::BadToken(FieldKey::Timestamp, fields[5].clone()),
                ),
            );
        },
    };
    let timestamp = match Timestamp::from_millis(millis as i64) {
        Some(ts) => ts,
        None => {
            return Err(ParsError::WrongFormat(FormatReason::BadTimestamp(millis)));
        },
    };
    let status = match status_of_token(&fields[6]) {
        Some(st) => st,
        None => {
            return Err(
                ParsError::WrongFormat(
                    FormatReason::BadToken(FieldKey::Status, fields[6].clone()),
                ),
            );
        },
    };
    let dn = fields[7].len();
    if !(dn >= 2 && fields[7][0] == QUOTE && fields[7][dn - 1] == QUOTE) {
        return Err(ParsError::WrongFormat(FormatReason::BadDescription));
    }
    if dn > u32::MAX as usize {
        return Err(ParsError::WrongFormat(FormatReason::OversizeDescription));
    }
    let description = remove_quotes(&fields[7]);
    if !check_utf8(description.as_slice()) {
        return Err(ParsError::WrongFormat(FormatReason::NotUtf8));
    }
    Ok(
        Transaction {
            tx_id,
            tx_type,
            from_user_id,
            to_user_id,
            amount,
            timestamp,
            status,
            description,
        },
    )
    
}

/// The field a key names, if it is one of the required eight.
pub open spec fn spec_key_of(k: Seq<u8>) -> Option<FieldKey> {
    if k == spec_key_token(FieldKey::TxId) {
        Some(FieldKey::TxId)
    } else if k == spec_key_token(FieldKey::TxType) {
        Some(FieldKey::TxType)
    } else if k == spec_key_token(FieldKey::FromUserId) {
        Some(FieldKey::FromUserId)
    } else if k == spec_key_token(FieldKey::ToUserId) {
        Some(FieldKey::ToUserId)
    } else if k == spec_key_token(FieldKey::Amount) {
        Some(FieldKey::Amount)
    } else if k == spec_key_token(FieldKey::Timestamp) {
        Some(FieldKey::Timestamp)
    } else if k == spec_key_token(FieldKey::Status) {
        Some(FieldKey::Status)
    } else if k == spec_key_token(FieldKey::Description) {
        Some(FieldKey::Description)
    } else {
        None
    }
}

/// Reads which required field a key names, if any.
pub fn key_of_token(k: &Vec<u8>) -> (r: Option<FieldKey>)
    ensures
        r == spec_key_of(k@),
{
    let keys: [FieldKey; 8] = [
        FieldKey::TxId,
        FieldKey::TxType,
        FieldKey::FromUserId,
        FieldKey::ToUserId,
        FieldKey::Amount,
        FieldKey::Timestamp,
        FieldKey::Status,
        FieldKey::Description,
    ];
    let mut i: usize = 0;
    while i < 8
        invariant
            0 <= i <= 8,
            keys@ =~= seq![
                FieldKey::TxId,
                FieldKey::TxType,
                FieldKey::FromUserId,
                FieldKey::ToUserId,
                FieldKey::Amount,
                FieldKey::Timestamp,
                FieldKey::Status,
                FieldKey::Description,
            ],
            forall|j: int| 0 <= j < i ==> k@ != spec_key_token(#[trigger] keys@[j]),
        decreases 8 - i,
    {
        let tok = key_token(keys[i]);
        if crate::utils::bytes_eq(k.as_slice(), tok.as_slice()) {
            return Some(keys[i]);
        }
        i = i + 1;
    }
    proof {
        assert(k@ != spec_key_token(keys@[0]));
        assert(k@ != spec_key_token(keys@[1]));
        assert(k@ != spec_key_token(keys@[2]));
        assert(k@ != spec_key_token(keys@[3]));
        assert(k@ != spec_key_token(keys@[4]));
        assert(k@ != spec_key_token(keys@[5]));
        assert(k@ != spec_key_token(keys@[6]));
        assert(k@ != spec_key_token(keys@[7]));
    }
    None
}

/// The three transaction-type tokens and the three status tokens are
/// pairwise distinct.
pub proof fn lemma_enum_tokens_distinct()
    ensures
        spec_tx_type_token(TxType::Deposit) != spec_tx_type_token(TxType::Transfer),
        spec_tx_type_token(TxType::Deposit) != spec_tx_type_token(TxType::Withdrawal),
        spec_tx_type_token(TxType::Transfer) != spec_tx_type_token(TxType::Withdrawal),
        spec_status_token(TxStatus::Success) != spec_status_token(TxStatus::Failure),
        spec_status_token(TxStatus::Success) != spec_status_token(TxStatus::Pending),
        spec_status_token(TxStatus::Failure) != spec_status_token(TxStatus::Pending),
{
    assert(spec_tx_type_token(TxType::Deposit).len() == 7);
    assert(spec_tx_type_token(TxType::Transfer).len() == 8);
    assert(spec_tx_type_token(TxType::Withdrawal).len() == 10);
    assert(spec_status_token(TxStatus::Success)[0] == 'S' as u8);
    assert(spec_status_token(TxStatus::Failure)[0] == 'F' as u8);
    assert(spec_status_token(TxStatus::Pending)[0] == 'P' as u8);
}

/// Law: the eight field tokens any representable transaction is printed as
/// pass every field-level check and denote that same transaction.
pub proof fn lemma_fields_of_tx_ok(tx: Transaction)
    requires
        tx.wf(),
    ensures
        spec_row_check(spec_fields_of_tx(tx)) is None,
        tx_matches_fields(tx, spec_fields_of_tx(tx)),
{
    let f = spec_fields_of_tx(tx);
    crate::numbers::lemma_parse_u64_of_dec(tx.tx_id);
    crate::numbers::lemma_parse_u64_of_dec(tx.from_user_id);
    crate::numbers::lemma_parse_u64_of_dec(tx.to_user_id);
    crate::numbers::lemma_parse_u64_of_dec(tx.timestamp.millis as u64);
    crate::numbers::lemma_parse_i64_of_dec(tx.amount);
    crate::numbers::lemma_i64_cast_round_trip(tx.timestamp.millis);
    assert(spec_tx_type_of_token(spec_tx_type_token(tx.tx_type)) == Some(tx.tx_type)) by {
        lemma_enum_tokens_distinct();
    }
    assert(spec_status_of_token(spec_status_token(tx.status)) == Some(tx.status)) by {
        lemma_enum_tokens_distinct();
    }
    assert(f[7].len() == tx.description@.len() + 2);
    assert(f[7][0] == QUOTE);
    assert(f[7][f[7].len() - 1] == QUOTE);
    assert(spec_quoted(f[7]));
    assert(spec_remove_quotes(f[7]) =~= tx.description@);
}

/// Law: two transactions denoted by the same field tokens are the same
/// logical record.
pub proof fn lemma_fields_decode_unique(a: Transaction, b: Transaction, f: Seq<Seq<u8>>)
    requires
        tx_matches_fields(a, f),
        tx_matches_fields(b, f),
    ensures
        crate::transaction::tx_equal(a, b),
{
}

} // verus!
