use vstd::prelude::*;
use crate::error::FormatReason;
use crate::error::IoReason;
use crate::error::ParsError;
use crate::numbers::spec_u32_be;
use crate::numbers::spec_u64_be;
use crate::numbers::spec_i64_be;
use crate::numbers::spec_u32_of_be;
use crate::numbers::spec_u64_of_be;
use crate::numbers::spec_i64_of_be;
use crate::numbers::push_u32_be;
use crate::numbers::push_u64_be;
use crate::numbers::u32_from_be;
use crate::numbers::u64_from_be;
use crate::transaction::MIN_TIMESTAMP_MILLIS;
use crate::transaction::MAX_TIMESTAMP_MILLIS;
use crate::transaction::Timestamp;
use crate::transaction::Transaction;
use crate::transaction::TxStatus;
use crate::transaction::TxType;
use crate::utils::QUOTE;
use crate::utils::spec_quoted;
use crate::utils::spec_remove_quotes;
use crate::utils::remove_quotes;
use crate::utils::check_utf8;
use vstd::utf8::valid_utf8;

verus! {

/// The four-byte sentinel that starts every binary record.
pub const MAGIC: u32 = 0x5950424E;

/// Bytes of a binary record before the description: magic, record size,
/// and the fixed-width fields.
pub const BIN_FIXED_LEN: usize = 54;

/// Contribution of the fixed-width fields to `record_size`, which counts
/// everything after the first eight bytes.
pub const BIN_BODY_FIXED_LEN: u32 = 46;

/// The numeric discriminant a transaction type is written as.
pub open spec fn spec_tx_type_code(t: TxType) -> u8 {
    match t {
        TxType::Deposit => 0,
        TxType::Transfer => 1,
        TxType::Withdrawal => 2,
    }
}

/// The numeric discriminant a status is written as.
pub open spec fn spec_status_code(s: TxStatus) -> u8 {
    match s {
        TxStatus::Success => 0,
        TxStatus::Failure => 1,
        TxStatus::Pending => 2,
    }
}

/// Writes the discriminant of a transaction type.
pub fn tx_type_code(t: TxType) -> (r: u8)
    ensures
        r == spec_tx_type_code(t),
{
    match t {
        TxType::Deposit => 0,
        TxType::Transfer => 1,
        TxType::Withdrawal => 2,
    }
}

/// Writes the discriminant of a status.
pub fn status_code(s: TxStatus) -> (r: u8)
    ensures
        r == spec_status_code(s),
{
    match s {
        TxStatus::Success => 0,
        TxStatus::Failure => 1,
        TxStatus::Pending => 2,
    }
}

/// Reads a transaction type back from its discriminant.
pub fn tx_type_of_code(c: u8) -> (r: Option<TxType>)
    ensures
        c <= 2 ==> (r matches Some(t) && spec_tx_type_code(t) == c),
        c > 2 ==> r is None,
{
    if c == 0 {
        Some(TxType::Deposit)
    } else if c == 1 {
        Some(TxType::Transfer)
    } else if c == 2 {
        Some(TxType::Withdrawal)
    } else {
        None
    }
}

/// Reads a status back from its discriminant.
pub fn status_of_code(c: u8) -> (r: Option<TxStatus>)
    ensures
        c <= 2 ==> (r matches Some(st) && spec_status_code(st) == c),
        c > 2 ==> r is None,
{
    if c == 0 {
        Some(TxStatus::Success)
    } else if c == 1 {
        Some(TxStatus::Failure)
    } else if c == 2 {
        Some(TxStatus::Pending)
    } else {
        None
    }
}

/// The field values of one binary record, with the description as a byte
/// sequence; the mathematical shadow of `BinTxRecord`.
pub struct BinTxRecordV {
    pub magic: u32,
    pub record_size: u32,
    pub tx_id: u64,
    pub tx_type: u8,
    pub from_user_id: u64,
    pub to_user_id: u64,
    pub amount: i64,
    pub timestamp: u64,
    pub status: u8,
    pub desc_len: u32,
    pub description: Seq<u8>,
}

/// One binary record as laid out on the wire: the magic sentinel, the body
/// length, the fixed-width fields, and the quote-wrapped description bytes.
#[derive(PartialEq, Eq, Debug)]
pub struct BinTxRecord {
    pub magic: u32,
    pub record_size: u32,
    pub tx_id: u64,
    pub tx_type: u8,
    pub from_user_id: u64,
    pub to_user_id: u64,
    pub amount: i64,
    pub timestamp: u64,
    pub status: u8,
    pub desc_len: u32,
    pub description: Vec<u8>,
}

impl View for BinTxRecord {
    type V = BinTxRecordV;

    open spec fn view(&self) -> BinTxRecordV {
        BinTxRecordV {
            magic: self.magic,
            record_size: self.record_size,
            tx_id: self.tx_id,
            tx_type: self.tx_type,
            from_user_id: self.from_user_id,
            to_user_id: self.to_user_id,
            amount: self.amount,
            timestamp: self.timestamp,
            status: self.status,
            desc_len: self.desc_len,
            description: self.description@,
        }
    }
}

/// The exact byte image of a record: every field big-endian, then the
/// description bytes.
pub open spec fn spec_bin_record_bytes(v: BinTxRecordV) -> Seq<u8> {
    spec_u32_be(v.magic) + spec_u32_be(v.record_size) + spec_u64_be(v.tx_id) + seq![v.tx_type]
        + spec_u64_be(v.from_user_id) + spec_u64_be(v.to_user_id) + spec_i64_be(v.amount)
        + spec_u64_be(v.timestamp) + seq![v.status] + spec_u32_be(v.desc_len) + v.description
}

/// The outcome of reading one binary record from the front of a stream.
pub enum BinParse {
    /// The stream ended exactly at the record boundary.
    Eos,
    /// The stream ended inside the record.
    Truncated,
    /// The magic sentinel did not match; its actual value.
    BadMagic(u32),
    /// A structurally complete record and the number of bytes it occupies.
    Rec(BinTxRecordV, int),
}

/// Structural parse of one binary record from the front of `s`: how the
/// decoder consumes bytes, before any field-level interpretation.
pub open spec fn spec_bin_parse(s: Seq<u8>) -> BinParse {
    if s.len() == 0 {
        BinParse::Eos
    } else if s.len() < 4 {
        BinParse::Truncated
    } else if spec_u32_of_be(s.subrange(0, 4)) != MAGIC {
        BinParse::BadMagic(spec_u32_of_be(s.subrange(0, 4)))
    } else if s.len() < 54 {
        BinParse::Truncated
    } else {
        let desc_len = spec_u32_of_be(s.subrange(50, 54));
        if s.len() - 54 < desc_len {
            BinParse::Truncated
        } else {
            BinParse::Rec(
                BinTxRecordV {
                    magic: MAGIC,
                    record_size: spec_u32_of_be(s.subrange(4, 8)),
                    tx_id: spec_u64_of_be(s.subrange(8, 16)),
                    tx_type: s[16],
                    from_user_id: spec_u64_of_be(s.subrange(17, 25)),
                    to_user_id: spec_u64_of_be(s.subrange(25, 33)),
                    amount: spec_i64_of_be(s.subrange(33, 41)),
                    timestamp: spec_u64_of_be(s.subrange(41, 49)),
                    status: s[49],
                    desc_len: desc_len,
                    description: s.subrange(54, 54 + desc_len),
                },
                54 + desc_len,
            )
        }
    }
}

/// The first field-level flaw of a record, in the order the checks run, or
/// nothing for a record that maps to a transaction.
pub open spec fn spec_bin_rec_check(v: BinTxRecordV) -> Option<FormatReason> {
    if v.tx_type > 2 {
        Some(FormatReason::BadTxType(v.tx_type))
    } else if v.status > 2 {
        Some(FormatReason::BadStatus(v.status))
    } else if !(MIN_TIMESTAMP_MILLIS <= v.timestamp as i64 <= MAX_TIMESTAMP_MILLIS) {
        Some(FormatReason::BadTimestamp(v.timestamp))
    } else if !spec_quoted(v.description) {
        Some(FormatReason::BadDescription)
    } else if !valid_utf8(spec_remove_quotes(v.description)) {
        Some(FormatReason::NotUtf8)
    } else {
        None
    }
}

/// The transaction a flawless binary record denotes.
pub open spec fn tx_matches_bin(tx: Transaction, v: BinTxRecordV) -> bool {
    &&& tx.tx_id == v.tx_id
    &&& spec_tx_type_code(tx.tx_type) == v.tx_type
    &&& tx.from_user_id == v.from_user_id
    &&& tx.to_user_id == v.to_user_id
    &&& tx.amount == v.amount
    &&& tx.timestamp.millis == v.timestamp as i64
    &&& spec_status_code(tx.status) == v.status
    &&& tx.description@ == spec_remove_quotes(v.description)
}

/// The binary record that a transaction is encoded as: the description gains
/// one pair of quotes, and both length fields are recomputed from the actual
/// widths.
pub open spec fn spec_bin_from_tx(tx: Transaction) -> BinTxRecordV {
    BinTxRecordV {
        magic: MAGIC,
        record_size: vstd::wrapping::u32_specs::wrapping_add(
            46u32,
            (tx.description@.len() + 2) as u32,
        ),
        tx_id: tx.tx_id,
        tx_type: spec_tx_type_code(tx.tx_type),
        from_user_id: tx.from_user_id,
        to_user_id: tx.to_user_id,
        amount: tx.amount,
        timestamp: tx.timestamp.millis as u64,
        status: spec_status_code(tx.status),
        desc_len: (tx.description@.len() + 2) as u32,
        description: seq![QUOTE] + tx.description@ + seq![QUOTE],
    }
}

/// The full byte image a transaction is written as.
pub open spec fn spec_bin_tx_bytes(tx: Transaction) -> Seq<u8> {
    spec_bin_record_bytes(spec_bin_from_tx(tx))
}

fn read_u8(data: &Vec<u8>, pos: &mut usize) -> (r: u8)
    requires
        *old(pos) + 1 <= data@.len(),
        data@.len() <= usize::MAX,
    ensures
        *final(pos) == *old(pos) + 1,
        r == data@[*old(pos) as int],
{
    let b = data[*pos];
    *pos = *pos + 1;
    b
}

fn read_u32(data: &Vec<u8>, pos: &mut usize) -> (r: u32)
    requires
        *old(pos) + 4 <= data@.len(),
        data@.len() <= usize::MAX,
    ensures
        *final(pos) == *old(pos) + 4,
        r == spec_u32_of_be(data@.subrange(*old(pos) as int, *old(pos) + 4)),
{
    let b0 = data[*pos];
    let b1 = data[*pos + 1];
    let b2 = data[*pos + 2];
    let b3 = data[*pos + 3];
    let r = u32_from_be(b0, b1, b2, b3);
    proof {
        assert(seq![b0, b1, b2, b3] =~= data@.subrange(*old(pos) as int, *old(pos) + 4));
    }
    *pos = *pos + 4;
    r
}

fn read_u64(data: &Vec<u8>, pos: &mut usize) -> (r: u64)
    requires
        *old(pos) + 8 <= data@.len(),
        data@.len() <= usize::MAX,
    ensures
        *final(pos) == *old(pos) + 8,
        r == spec_u64_of_be(data@.subrange(*old(pos) as int, *old(pos) + 8)),
{
    let b0 = data[*pos];
    let b1 = data[*pos + 1];
    let b2 = data[*pos + 2];
    let b3 = data[*pos + 3];
    let b4 = data[*pos + 4];
    let b5 = data[*pos + 5];
    let b6 = data[*pos + 6];
    let b7 = data[*pos + 7];
    let r = u64_from_be(b0, b1, b2, b3, b4, b5, b6, b7);
    proof {
        assert(seq![b0, b1, b2, b3, b4, b5, b6, b7] =~= data@.subrange(
            *old(pos) as int,
            *old(pos) + 8,
        ));
    }
    *pos = *pos + 8;
    r
}

fn read_i64(data: &Vec<u8>, pos: &mut usize) -> (r: i64)
    requires
        *old(pos) + 8 <= data@.len(),
        data@.len() <= usize::MAX,
    ensures
        *final(pos) == *old(pos) + 8,
        r == spec_i64_of_be(data@.subrange(*old(pos) as int, *old(pos) + 8)),
{
    let v = read_u64(data, pos);
    v as i64
}

impl BinTxRecord {
    /// Appends the exact byte image of this record: every field big-endian,
    /// then the description bytes as stored.
    pub fn serialize(&self, out: &mut Vec<u8>)
        ensures
            final(out)@ == old(out)@ + spec_bin_record_bytes(self@),
    {
        push_u32_be(out, self.magic);
        push_u32_be(out, self.record_size);
        push_u64_be(out, self.tx_id);
        out.push(self.tx_type);
        push_u64_be(out, self.from_user_id);
        push_u64_be(out, self.to_user_id);
        push_u64_be(out, self.amount as u64);
        push_u64_be(out, self.timestamp);
        out.push(self.status);
        push_u32_be(out, self.desc_len);
        let n = self.description.len();
        let mut j: usize = 0;
        while j < n
            invariant
                0 <= j <= n == self.description@.len(),
                out@ =~= old(out)@ + spec_bin_record_bytes(self@).subrange(
                    0,
                    54 + j as int,
                ),
            decreases n - j,
        {
            out.push(self.description[j]);
            proof {
                assert(out@ =~= old(out)@ + spec_bin_record_bytes(self@).subrange(
                    0,
                    54 + j + 1 as int,
                ));
            }
            j = j + 1;
        }
        proof {
            assert(spec_bin_record_bytes(self@).subrange(
                0,
                spec_bin_record_bytes(self@).len() as int,
            ) =~= spec_bin_record_bytes(self@));
        }
    }

    /// Reads the next record from the stream, distinguishing clean
    /// exhaustion at a record boundary from truncation inside a record.
    pub fn deserialize(data: &Vec<u8>, pos: &mut usize) -> (r: Result<BinTxRecord, ParsError>)
        requires
            *old(pos) <= data@.len(),
        ensures
            *final(pos) <= data@.len(),
            match spec_bin_parse(data@.skip(*old(pos) as int)) {
                BinParse::Eos => r == Err::<BinTxRecord, ParsError>(ParsError::EndOfStream)
                    && *final(pos) == *old(pos),
                BinParse::Truncated => r == Err::<BinTxRecord, ParsError>(
                    ParsError::IoError(IoReason::TruncatedRecord),
                ) && *final(pos) == *old(pos),
                BinParse::BadMagic(m) => r == Err::<BinTxRecord, ParsError>(
                    ParsError::WrongFormat(FormatReason::BadMagic(m)),
                ) && *final(pos) == *old(pos),
                BinParse::Rec(v, k) => r matches Ok(rec) && rec@ == v && *final(pos) == *old(pos)
                    + k,
            },
    {
        let ghost s = data@.skip(*old(pos) as int);
        let n = data.len();
        let avail = n - *pos;
        if avail == 0 {
            return Err(ParsError::EndOfStream);
        }
        if avail < 4 {
            return Err(ParsError::IoError(IoReason::TruncatedRecord));
        }
        let mut cur: usize = *pos;
        let magic = read_u32(data, &mut cur);
        proof {
            assert(data@.subrange(*old(pos) as int, *old(pos) + 4) =~= s.subrange(0, 4));
        }
        if magic != MAGIC {
            return Err(ParsError::WrongFormat(FormatReason::BadMagic(magic)));
        }
        if avail < 54 {
            return Err(ParsError::IoError(IoReason::TruncatedRecord));
        }
        let record_size = read_u32(data, &mut cur);
        let tx_id = read_u64(data, &mut cur);
        let tx_type = read_u8(data, &mut cur);
        let from_user_id = read_u64(data, &mut cur);
        let to_user_id = read_u64(data, &mut cur);
        let amount = read_i64(data, &mut cur);
        let timestamp = read_u64(data, &mut cur);
        let status = read_u8(data, &mut cur);
        let desc_len = read_u32(data, &mut cur);
        proof {
            assert(data@.subrange(*old(pos) + 4, *old(pos) + 8) =~= s.subrange(4, 8));
            assert(data@.subrange(*old(pos) + 8, *old(pos) + 16) =~= s.subrange(8, 16));
            assert(data@[*old(pos) + 16] == s[16]);
            assert(data@.subrange(*old(pos) + 17, *old(pos) + 25) =~= s.subrange(17, 25));
            assert(data@.subrange(*old(pos) + 25, *old(pos) + 33) =~= s.subrange(25, 33));
            assert(data@.subrange(*old(pos) + 33, *old(pos) + 41) =~= s.subrange(33, 41));
            assert(data@.subrange(*old(pos) + 41, *old(pos) + 49) =~= s.subrange(41, 49));
            assert(data@[*old(pos) + 49] == s[49]);
            assert(data@.subrange(*old(pos) + 50, *old(pos) + 54) =~= s.subrange(50, 54));
        }
        let dl = desc_len as usize;
        if avail - 54 < dl {
            return Err(ParsError::IoError(IoReason::TruncatedRecord));
        }
        let mut description: Vec<u8> = Vec::new();
        let mut j: usize = 0;
        while j < dl
            invariant
                0 <= j <= dl,
                cur == *old(pos) + 54,
                *old(pos) + 54 + dl <= data@.len(),
                description@ =~= data@.subrange(cur as int, cur + j as int),
            decreases dl - j,
        {
            description.push(data[cur + j]);
            proof {
                assert(description@ =~= data@.subrange(cur as int, cur + j + 1 as int));
            }
            j = j + 1;
        }
        proof {
            assert(data@.subrange(*old(pos) + 54, *old(pos) + 54 + dl) =~= s.subrange(
                54,
                54 + dl,
            ));
        }
        *pos = cur + dl;
        Ok(
            BinTxRecord {
                magic,
                record_size,
                tx_id,
                tx_type,
                from_user_id,
                to_user_id,
                amount,
                timestamp,
                status,
                desc_len,
                description,
            },
        )
    }

    /// Interprets the record's fields, rejecting unknown discriminants, an
    /// out-of-range timestamp, a description without its quote pair, or
    /// description text that is not UTF-8.
    pub fn to_transaction(&self) -> (r: Result<Transaction, ParsError>)
        ensures
            match spec_bin_rec_check(self@) {
                Some(reason) => r == Err::<Transaction, ParsError>(
                    ParsError::WrongFormat(reason),
                ),
                None => r matches Ok(tx) && tx_matches_bin(tx, self@),
            },
    {
        let tx_type = match tx_type_of_code(self.tx_type) {
            Some(t) => t,
            None => {
                return Err(ParsError::WrongFormat(FormatReason::BadTxType(self.tx_type)));
            },
        };
        let status = match status_of_code(self.status) {
            Some(st) => st,
            None => {
                return Err(ParsError::WrongFormat(FormatReason::BadStatus(self.status)));
            },
        };
        let timestamp = match Timestamp::from_millis(self.timestamp as i64) {
            Some(ts) => ts,
            None => {
                return Err(ParsError::WrongFormat(FormatReason::BadTimestamp(self.timestamp)));
            },
        };
        let n = self.description.len();
        if !(n >= 2 && self.description[0] == QUOTE && self.description[n - 1] == QUOTE) {
            return Err(ParsError::WrongFormat(FormatReason::BadDescription));
        }
        let description = remove_quotes(&self.description);
        if !check_utf8(description.as_slice()) {
            return Err(ParsError::WrongFormat(FormatReason::NotUtf8));
        }
        Ok(
            Transaction {
                tx_id: self.tx_id,
                tx_type,
                from_user_id: self.from_user_id,
                to_user_id: self.to_user_id,
                amount: self.amount,
                timestamp,
                status,
                description,
            },
        )
    }

    /// Builds the record a transaction is written as, re-wrapping the
    /// description in quotes and recomputing both length fields.
    pub fn from_transaction(tx: &Transaction) -> (r: BinTxRecord)
        requires
            tx.description@.len() + 2 <= u32::MAX,
        ensures
            r@ == spec_bin_from_tx(*tx),
    {
        let mut description: Vec<u8> = Vec::new();
        description.push(QUOTE);
        let n = tx.description.len();
        let mut j: usize = 0;
        while j < n
            invariant
                0 <= j <= n == tx.description@.len(),
                description@ =~= seq![QUOTE] + tx.description@.subrange(0, j as int),
            decreases n - j,
        {
            description.push(tx.description[j]);
            proof {
                assert(description@ =~= seq![QUOTE] + tx.description@.subrange(0, j + 1 as int));
            }
            j = j + 1;
        }
        description.push(QUOTE);
        proof {
            assert(tx.description@.subrange(0, n as int) =~= tx.description@);
            assert(description@ =~= seq![QUOTE] + tx.description@ + seq![QUOTE]);
        }
        let desc_len = description.len() as u32;
        let record_size = 46u32.wrapping_add(desc_len);
        BinTxRecord {
            magic: MAGIC,
            record_size,
            tx_id: tx.tx_id,
            tx_type: tx_type_code(tx.tx_type),
            from_user_id: tx.from_user_id,
            to_user_id: tx.to_user_id,
            amount: tx.amount,
            timestamp: tx.timestamp.millis as u64,
            status: status_code(tx.status),
            desc_len,
            description,
        }
    }
}

/// A reader that pulls transactions one at a time from an in-memory binary
/// stream.
pub struct BinTxReader {
    pub data: Vec<u8>,
    pub pos: usize,
}

/// The exact relation between a binary reader before and after one read
/// call, and the call's result.
pub open spec fn bin_read_step(
    pre: BinTxReader,
    post: BinTxReader,
    r: Result<Option<Transaction>, ParsError>,
) -> bool {
    &&& post.data@ == pre.data@
    &&& match spec_bin_parse(pre.data@.skip(pre.pos as int)) {
        BinParse::Eos => r == Ok::<Option<Transaction>, ParsError>(None) && post.pos == pre.pos,
        BinParse::Truncated => r == Err::<Option<Transaction>, ParsError>(
            ParsError::IoError(IoReason::TruncatedRecord),
        ) && post.pos == pre.pos,
        BinParse::BadMagic(m) => r == Err::<Option<Transaction>, ParsError>(
            ParsError::WrongFormat(FormatReason::BadMagic(m)),
        ) && post.pos == pre.pos,
        BinParse::Rec(v, k) => post.pos == pre.pos + k && match spec_bin_rec_check(v) {
            Some(reason) => r == Err::<Option<Transaction>, ParsError>(
                ParsError::WrongFormat(reason),
            ),
            None => r matches Ok(Some(tx)) && tx_matches_bin(tx, v) && tx.wf(),
        },
    }
}

impl BinTxReader {
    /// The position never runs past the end of the stream.
    pub open spec fn wf(self) -> bool {
        self.pos <= self.data@.len()
    }

    /// Wraps an in-memory byte stream.
    pub fn new(stream: Vec<u8>) -> (r: Result<BinTxReader, ParsError>)
        ensures
            r matches Ok(rd) && rd.data@ == stream@ && rd.pos == 0 && rd.wf(),
    {
        Ok(BinTxReader { data: stream, pos: 0 })
    }

    /// Reads the next record and interprets it, reporting clean end of data
    /// as no further records; truncation inside a record stays an error.
    pub fn read_transaction(&mut self) -> (r: Result<Option<Transaction>, ParsError>)
        requires
            old(self).wf(),
        ensures
            final(self).wf(),
            bin_read_step(*old(self), *final(self), r),
    {
        let rec = match BinTxRecord::deserialize(&self.data, &mut self.pos) {
            Ok(rec) => rec,
            Err(e) => {
                if matches!(e, ParsError::EndOfStream) {
                    return Ok(None);
                }
                return Err(e);
            },
        };
        proof {
            let s = old(self).data@.skip(old(self).pos as int);
            if let BinParse::Rec(v, k) = spec_bin_parse(s) {
                assert(v.description.len() == v.desc_len);
            }
        }
        match rec.to_transaction() {
            Ok(tx) => Ok(Some(tx)),
            Err(e) => Err(e),
        }
    }
}

/// A writer that appends transactions one at a time to an in-memory binary
/// stream.
pub struct BinTxWriter {
    pub stream: Vec<u8>,
}

impl BinTxWriter {
    /// Wraps an in-memory output buffer, which may already hold earlier
    /// records.
    pub fn new(stream: Vec<u8>) -> (r: Result<BinTxWriter, ParsError>)
        ensures
            r matches Ok(w) && w.stream@ == stream@,
    {
        Ok(BinTxWriter { stream })
    }

    /// Appends the exact byte image of one transaction.
    pub fn write_transaction(&mut self, data: &Transaction) -> (r: Result<(), ParsError>)
        requires
            data.description@.len() + 2 <= u32::MAX,
        ensures
            r == Ok::<(), ParsError>(()),
            final(self).stream@ == old(self).stream@ + spec_bin_tx_bytes(*data),
    {
        let record = BinTxRecord::from_transaction(data);
        record.serialize(&mut self.stream);
        Ok(())
    }
}

/// Law: two transactions denoted by the same binary record are the same
/// logical record.
pub proof fn lemma_bin_decode_unique(a: Transaction, b: Transaction, v: BinTxRecordV)
    requires
        tx_matches_bin(a, v),
        tx_matches_bin(b, v),
    ensures
        crate::transaction::tx_equal(a, b),
{
    assert(a.tx_type == b.tx_type);
    assert(a.status == b.status);
}

/// Law: encoding any representable transaction as a binary record and
/// decoding those bytes, with anything at all behind them, yields a
/// structurally complete record, which passes every field-level check and
/// denotes the original transaction, consuming exactly the bytes written.
#[verifier::rlimit(60)]
pub proof fn lemma_bin_round_trip(tx: Transaction, tail: Seq<u8>)
    requires
        tx.wf(),
    ensures
        spec_bin_parse(spec_bin_tx_bytes(tx) + tail) matches BinParse::Rec(v, k)
            && k == spec_bin_tx_bytes(tx).len() && spec_bin_rec_check(v) is None && tx_matches_bin(
            tx,
            v,
        ),
{
    let v0 = spec_bin_from_tx(tx);
    let bs = spec_bin_record_bytes(v0) + tail;
    let dlen = tx.description@.len() + 2;
    assert(v0.description.len() == dlen);
    assert(bs.len() == 54 + dlen + tail.len());
    assert(spec_bin_tx_bytes(tx).len() == 54 + dlen);
    assert(bs.subrange(0, 4) =~= spec_u32_be(v0.magic));
    assert(bs.subrange(4, 8) =~= spec_u32_be(v0.record_size));
    assert(bs.subrange(8, 16) =~= spec_u64_be(v0.tx_id));
    assert(bs[16] == v0.tx_type);
    assert(bs.subrange(17, 25) =~= spec_u64_be(v0.from_user_id));
    assert(bs.subrange(25, 33) =~= spec_u64_be(v0.to_user_id));
    assert(bs.subrange(33, 41) =~= spec_u64_be(v0.amount as u64));
    assert(bs.subrange(41, 49) =~= spec_u64_be(v0.timestamp));
    assert(bs[49] == v0.status);
    assert(bs.subrange(50, 54) =~= spec_u32_be(v0.desc_len));
    assert(bs.subrange(54, 54 + v0.desc_len) =~= v0.description);
    crate::numbers::lemma_u32_of_be_of(v0.magic);
    crate::numbers::lemma_u32_of_be_of(v0.record_size);
    crate::numbers::lemma_u32_of_be_of(v0.desc_len);
    crate::numbers::lemma_u64_of_be_of(v0.tx_id);
    crate::numbers::lemma_u64_of_be_of(v0.from_user_id);
    crate::numbers::lemma_u64_of_be_of(v0.to_user_id);
    crate::numbers::lemma_u64_of_be_of(v0.amount as u64);
    crate::numbers::lemma_u64_of_be_of(v0.timestamp);
    crate::numbers::lemma_i64_cast_round_trip(tx.amount);
    crate::numbers::lemma_i64_cast_round_trip(tx.timestamp.millis);
    assert(v0.desc_len == dlen);
    assert(spec_bin_parse(bs) matches BinParse::Rec(v, k) && k == 54 + dlen);
    if let BinParse::Rec(v, k) = spec_bin_parse(bs) {
        assert(v.magic == v0.magic);
        assert(v.record_size == v0.record_size);
        assert(v.tx_id == v0.tx_id);
        assert(v.tx_type == v0.tx_type);
        assert(v.from_user_id == v0.from_user_id);
        assert(v.to_user_id == v0.to_user_id);
        assert(v.amount == v0.amount);
        assert(v.timestamp == v0.timestamp);
        assert(v.status == v0.status);
        assert(v.desc_len == v0.desc_len);
        assert(v.description =~= v0.description);
        assert(v.tx_type <= 2);
        assert(v.status <= 2);
        assert(v.timestamp as i64 == tx.timestamp.millis);
        assert(spec_quoted(v.description));
        assert(spec_remove_quotes(v.description) =~= tx.description@);
        assert(spec_bin_rec_check(v) is None);
        assert(tx_matches_bin(tx, v));
    }
}


/// Law: a read call on a stream that begins with the binary encoding of a
/// representable transaction must return that very record and consume
/// exactly its bytes.
pub proof fn lemma_bin_read_round_trip(
    pre: BinTxReader,
    post: BinTxReader,
    r: Result<Option<Transaction>, ParsError>,
    tx: Transaction,
    tail: Seq<u8>,
)
    requires
        tx.wf(),
        pre.wf(),
        pre.data@.skip(pre.pos as int) == spec_bin_tx_bytes(tx) + tail,
        bin_read_step(pre, post, r),
    ensures
        r matches Ok(rr) && rr matches Some(tx2) && crate::transaction::tx_equal(tx2, tx),
        post.data@.skip(post.pos as int) == tail,
{
    lemma_bin_round_trip(tx, tail);
    let s = pre.data@.skip(pre.pos as int);
    assert(s.len() > 0);
    assert(pre.pos <= pre.data@.len());
    if let BinParse::Rec(v, k) = spec_bin_parse(s) {
        match r {
            Ok(Some(tx2)) => {
                lemma_bin_decode_unique(tx2, tx, v);
            },
            _ => {},
        }
        assert(s.len() == pre.data@.len() - pre.pos);
        assert(post.pos == pre.pos + k);
        assert(k == spec_bin_tx_bytes(tx).len());
        assert(post.pos + tail.len() == pre.data@.len());
        assert forall|i: int|
            0 <= i < tail.len() implies post.data@.skip(post.pos as int)[i] == tail[i] by {
            assert(post.data@.skip(post.pos as int)[i] == post.data@[post.pos + i]);
            assert(tail[i] == (spec_bin_tx_bytes(tx) + tail)[k + i]);
            assert(s[k + i] == pre.data@[pre.pos + k + i]);
        }
        assert(post.data@.skip(post.pos as int).len() == tail.len());
        assert(post.data@.skip(post.pos as int) =~= tail);
    }
}

} // verus!
