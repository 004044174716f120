use vstd::prelude::*;
use crate::error::FieldKey;
use crate::error::FormatReason;
use crate::error::ParsError;
use crate::numbers::spec_parse_u64;
use crate::numbers::spec_parse_i64;
use crate::numbers::spec_dec_digits;
use crate::numbers::spec_i64_dec;
use crate::numbers::parse_u64;
use crate::numbers::parse_i64;
use crate::numbers::push_u64_dec;
use crate::numbers::push_i64_dec;
use crate::transaction::MIN_TIMESTAMP_MILLIS;
use crate::transaction::MAX_TIMESTAMP_MILLIS;
use crate::transaction::Timestamp;
use crate::transaction::Transaction;
use crate::transaction::TxStatus;
use crate::transaction::TxType;
use crate::utils::read_byte;
use crate::utils::trim_bytes;
use crate::utils::spec_trim;
use crate::utils::remove_quotes;
use crate::utils::spec_remove_quotes;
use crate::utils::spec_quoted;
use crate::utils::check_utf8;
use crate::utils::QUOTE;
use crate::utils::COMMA;
use crate::utils::NEWLINE;
use crate::utils::SPACE;
use crate::utils::BACKSLASH;
use vstd::utf8::valid_utf8;
use crate::fields::spec_key_token;
use crate::fields::spec_header_fields;
use crate::fields::key_token;
use crate::fields::spec_tx_type_token;
use crate::fields::tx_type_token;
use crate::fields::spec_status_token;
use crate::fields::status_token;
use crate::fields::spec_tx_type_of_token;
use crate::fields::tx_type_of_token;
use crate::fields::spec_status_of_token;
use crate::fields::status_of_token;
use crate::fields::RowErr;
use crate::fields::wrong_format_matches;
use crate::fields::spec_row_check;
use crate::fields::tx_matches_fields;
use crate::fields::spec_fields_of_tx;

verus! {

/// The states of the row tokenizer.
#[derive(Clone, Copy, PartialEq, Eq, Structural, Debug)]
pub enum CsvState {
    /// Before the first byte of a row; blank space and empty lines are
    /// skipped.
    WaitStartRecord,
    /// Before the first byte of a value; spaces are skipped.
    WaitStartValue,
    /// Inside a value, scanning for the comma or newline that ends it.
    WaitEndRegular,
    /// Inside a quoted section, where delimiters lose their meaning.
    WaitEndString,
    /// Immediately after a backslash inside a quoted section; the next byte
    /// is taken literally.
    WaitEscaped,
}

/// A token produced by the row tokenizer.
pub enum CsvToken {
    /// A value ended by a comma; the row continues.
    Value(Vec<u8>),
    /// A value ended by a newline; the row is complete.
    EndOfLine(Vec<u8>),
    /// The stream is exhausted, with the trailing partial value if one was
    /// accumulated.
    EndOfStream(Option<Vec<u8>>),
}

/// The mathematical shadow of a token.
pub enum CsvTokenV {
    Value(Seq<u8>),
    EndOfLine(Seq<u8>),
    EndOfStream(Option<Seq<u8>>),
}

impl View for CsvToken {
    type V = CsvTokenV;

    open spec fn view(&self) -> CsvTokenV {
        match self {
            CsvToken::Value(v) => CsvTokenV::Value(v@),
            CsvToken::EndOfLine(v) => CsvTokenV::EndOfLine(v@),
            CsvToken::EndOfStream(o) => CsvTokenV::EndOfStream(
                match o {
                    Some(v) => Some(v@),
                    None => None,
                },
            ),
        }
    }
}

/// What one run of the tokenizer leaves behind: the token, the state it
/// parked in, and the input it has not consumed.
pub struct CsvScan {
    pub tok: CsvTokenV,
    pub st: CsvState,
    pub rest: Seq<u8>,
}

/// The row tokenizer as a function: from a state, the remaining input and
/// the bytes accumulated so far, to the next token. Each value is trimmed
/// of surrounding whitespace; quotes keep the bytes between them, and a
/// backslash inside quotes takes the following byte literally.
pub open spec fn csv_scan(st: CsvState, inp: Seq<u8>, buf: Seq<u8>) -> CsvScan
    decreases inp.len(),
{
    if inp.len() == 0 {
        let t = spec_trim(buf);
        CsvScan {
            tok: CsvTokenV::EndOfStream(
                if t.len() == 0 {
                    None
                } else {
                    Some(t)
                },
            ),
            st,
            rest: inp,
        }
    } else {
        let b = inp[0];
        let tail = inp.drop_first();
        match st {
            CsvState::WaitStartRecord => {
                if b == SPACE || b == NEWLINE {
                    csv_scan(st, tail, buf)
                } else if b == QUOTE {
                    csv_scan(CsvState::WaitEndString, tail, buf.push(b))
                } else {
                    csv_scan(CsvState::WaitEndRegular, tail, buf.push(b))
                }
            },
            CsvState::WaitStartValue => {
                if b == SPACE {
                    csv_scan(st, tail, buf)
                } else if b == QUOTE {
                    csv_scan(CsvState::WaitEndString, tail, buf.push(b))
                } else {
                    csv_scan(CsvState::WaitEndRegular, tail, buf.push(b))
                }
            },
            CsvState::WaitEndRegular => {
                if b == COMMA {
                    CsvScan {
                        tok: CsvTokenV::Value(spec_trim(buf)),
                        st: CsvState::WaitStartValue,
                        rest: tail,
                    }
                } else if b == NEWLINE {
                    CsvScan {
                        tok: CsvTokenV::EndOfLine(spec_trim(buf)),
                        st: CsvState::WaitStartRecord,
                        rest: tail,
                    }
                } else {
                    csv_scan(st, tail, buf.push(b))
                }
            },
            CsvState::WaitEndString => {
                if b == BACKSLASH {
                    csv_scan(CsvState::WaitEscaped, tail, buf)
                } else if b == QUOTE {
                    csv_scan(CsvState::WaitEndRegular, tail, buf.push(b))
                } else {
                    csv_scan(st, tail, buf.push(b))
                }
            },
            CsvState::WaitEscaped => csv_scan(CsvState::WaitEndString, tail, buf.push(b)),
        }
    }
}

/// The tokenizer consumes input: what it leaves is a suffix, a strict one
/// when a value or line token came out, and nothing at all at end of
/// stream.
pub proof fn lemma_csv_scan_len(st: CsvState, inp: Seq<u8>, buf: Seq<u8>)
    ensures
        csv_scan(st, inp, buf).rest.len() <= inp.len(),
        csv_scan(st, inp, buf).tok is EndOfStream ==> csv_scan(st, inp, buf).rest.len() == 0,
        !(csv_scan(st, inp, buf).tok is EndOfStream) ==> csv_scan(st, inp, buf).rest.len()
            < inp.len(),
    decreases inp.len(),
{
    if inp.len() != 0 {
        let b = inp[0];
        let tail = inp.drop_first();
        match st {
            CsvState::WaitStartRecord => {
                if b == SPACE || b == NEWLINE {
                    lemma_csv_scan_len(st, tail, buf);
                } else if b == QUOTE {
                    lemma_csv_scan_len(CsvState::WaitEndString, tail, buf.push(b));
                } else {
                    lemma_csv_scan_len(CsvState::WaitEndRegular, tail, buf.push(b));
                }
            },
            CsvState::WaitStartValue => {
                if b == SPACE {
                    lemma_csv_scan_len(st, tail, buf);
                } else if b == QUOTE {
                    lemma_csv_scan_len(CsvState::WaitEndString, tail, buf.push(b));
                } else {
                    lemma_csv_scan_len(CsvState::WaitEndRegular, tail, buf.push(b));
                }
            },
            CsvState::WaitEndRegular => {
                if b == COMMA || b == NEWLINE {
                } else {
                    lemma_csv_scan_len(st, tail, buf.push(b));
                }
            },
            CsvState::WaitEndString => {
                if b == BACKSLASH {
                    lemma_csv_scan_len(CsvState::WaitEscaped, tail, buf);
                } else if b == QUOTE {
                    lemma_csv_scan_len(CsvState::WaitEndRegular, tail, buf.push(b));
                } else {
                    lemma_csv_scan_len(st, tail, buf.push(b));
                }
            },
            CsvState::WaitEscaped => {
                lemma_csv_scan_len(CsvState::WaitEscaped, tail, buf);
                lemma_csv_scan_len(CsvState::WaitEndString, tail, buf.push(b));
            },
        }
    }
}

/// The byte-level tokenizer over an in-memory stream.
pub struct Parser {
    pub state: CsvState,
    pub data: Vec<u8>,
    pub pos: usize,
}

impl Parser {
    /// The position never runs past the end of the stream.
    pub open spec fn wf(self) -> bool {
        self.pos <= self.data@.len()
    }

    /// Starts tokenizing at the head of a row.
    pub fn new(stream: Vec<u8>) -> (r: Parser)
        ensures
            r.state == CsvState::WaitStartRecord,
            r.data@ == stream@,
            r.pos == 0,
            r.wf(),
    {
        Parser { state: CsvState::WaitStartRecord, data: stream, pos: 0 }
    }

    /// Produces the next token, exactly as the tokenizer function reads it
    /// from the unconsumed input.
    pub fn get_next_token(&mut self) -> (t: CsvToken)
        requires
            old(self).wf(),
        ensures
            final(self).wf(),
            final(self).data@ == old(self).data@,
            ({
                let sc = csv_scan(
                    old(self).state,
                    old(self).data@.skip(old(self).pos as int),
                    Seq::empty(),
                );
                &&& t@ == sc.tok
                &&& final(self).state == sc.st
                &&& final(self).data@.skip(final(self).pos as int) == sc.rest
            }),
    {
        let ghost sc = csv_scan(
            old(self).state,
            old(self).data@.skip(old(self).pos as int),
            Seq::empty(),
        );
        let mut buf: Vec<u8> = Vec::new();
        loop
            invariant
                self.wf(),
                self.data@ == old(self).data@,
                csv_scan(self.state, self.data@.skip(self.pos as int), buf@) == sc,
            decreases self.data@.len() - self.pos,
        {
            let ghost inp = self.data@.skip(self.pos as int);
            let byte = match read_byte(&self.data, &mut self.pos) {
                Ok(b) => b,
                Err(_) => {
                    proof {
                        assert(inp.len() == 0);
                    }
                    let trimmed = trim_bytes(&buf);
                    if trimmed.len() == 0 {
                        return CsvToken::EndOfStream(None);
                    } else {
                        return CsvToken::EndOfStream(Some(trimmed));
                    }
                },
            };
            proof {
                assert(inp.len() > 0);
                assert(inp[0] == byte);
                assert(inp.drop_first() =~= self.data@.skip(self.pos as int));
            }
            match self.state {
                CsvState::WaitStartRecord => {
                    if byte == SPACE || byte == NEWLINE {
                        continue;
                    }
                    buf.push(byte);
                    if byte == QUOTE {
                        self.state = CsvState::WaitEndString;
                    } else {
                        self.state = CsvState::WaitEndRegular;
                    }
                },
                CsvState::WaitStartValue => {
                    if byte == SPACE {
                        continue;
                    }
                    buf.push(byte);
                    if byte == QUOTE {
                        self.state = CsvState::WaitEndString;
                    } else {
                        self.state = CsvState::WaitEndRegular;
                    }
                },
                CsvState::WaitEndRegular => {
                    if byte == COMMA {
                        self.state = CsvState::WaitStartValue;
                        return CsvToken::Value(trim_bytes(&buf));
                    }
                    if byte == NEWLINE {
                        self.state = CsvState::WaitStartRecord;
                        return CsvToken::EndOfLine(trim_bytes(&buf));
                    }
                    buf.push(byte);
                },
                CsvState::WaitEndString => {
                    if byte == BACKSLASH {
                        self.state = CsvState::WaitEscaped;
                        continue;
                    }
                    buf.push(byte);
                    if byte == QUOTE {
                        self.state = CsvState::WaitEndRegular;
                    }
                },
                CsvState::WaitEscaped => {
                    buf.push(byte);
                    self.state = CsvState::WaitEndString;
                },
            }
        }
    }
}

// ---------------------------------------------------------------------------
// Rows
// ---------------------------------------------------------------------------

/// What reading one row leaves behind: its fields, the tokenizer state, and
/// the unconsumed input.
pub struct CsvRow {
    pub fields: Seq<Seq<u8>>,
    pub st: CsvState,
    pub rest: Seq<u8>,
}

/// Reads tokens until a line ends or the stream runs out: the fields of one
/// row. A trailing partial value at end of stream counts as a final field.
pub open spec fn spec_csv_row(st: CsvState, inp: Seq<u8>) -> CsvRow
    decreases inp.len(),
    via spec_csv_row_dec
{
    let sc = csv_scan(st, inp, Seq::empty());
    match sc.tok {
        CsvTokenV::Value(v) => {
            let r = spec_csv_row(sc.st, sc.rest);
            CsvRow { fields: seq![v] + r.fields, st: r.st, rest: r.rest }
        },
        CsvTokenV::EndOfLine(v) => CsvRow { fields: seq![v], st: sc.st, rest: sc.rest },
        CsvTokenV::EndOfStream(o) => CsvRow {
            fields: match o {
                Some(v) => seq![v],
                None => seq![],
            },
            st: sc.st,
            rest: sc.rest,
        },
    }
}

#[via_fn]
proof fn spec_csv_row_dec(st: CsvState, inp: Seq<u8>) {
    lemma_csv_scan_len(st, inp, Seq::empty());
}

/// Reading a row consumes a prefix of the input.
pub proof fn lemma_csv_row_len(st: CsvState, inp: Seq<u8>)
    ensures
        spec_csv_row(st, inp).rest.len() <= inp.len(),
    decreases inp.len(),
{
    let sc = csv_scan(st, inp, Seq::empty());
    lemma_csv_scan_len(st, inp, Seq::empty());
    match sc.tok {
        CsvTokenV::Value(_) => {
            lemma_csv_row_len(sc.st, sc.rest);
        },
        _ => {},
    }
}

/// The fields of a row joined with commas.
pub open spec fn spec_join_comma(fs: Seq<Seq<u8>>) -> Seq<u8>
    decreases fs.len(),
{
    if fs.len() == 0 {
        Seq::empty()
    } else if fs.len() == 1 {
        fs[0]
    } else {
        spec_join_comma(fs.drop_last()) + seq![COMMA] + fs.last()
    }
}

/// The byte image of one row: its fields joined with commas, then a
/// newline.
pub open spec fn spec_row_bytes(fs: Seq<Seq<u8>>) -> Seq<u8> {
    spec_join_comma(fs) + seq![NEWLINE]
}

/// The header line as written.
pub open spec fn spec_header_bytes() -> Seq<u8> {
    spec_row_bytes(spec_header_fields())
}

/// One CSV row: the raw field tokens in column order.
#[derive(PartialEq, Eq, Debug)]
pub struct CsvTxRecord {
    pub fields: Vec<Vec<u8>>,
}

impl CsvTxRecord {
    /// Appends the fields joined with commas and a final newline.
    pub fn serialize(&self, out: &mut Vec<u8>)
        ensures
            final(out)@ == old(out)@ + spec_row_bytes(self.fields.deep_view()),
    {
        let ghost f = self.fields.deep_view();
        let n = self.fields.len();
        proof {
            assert(f.len() == n);
        }
        let mut idx: usize = 0;
        while idx < n
            invariant
                0 <= idx <= n,
                out@ =~= old(out)@ + spec_join_comma(f.subrange(0, idx as int)),
            decreases n - idx,
        {
            if idx > 0 {
                out.push(COMMA);
            }
            out.extend_from_slice(self.fields[idx].as_slice());
            proof {
                assert(self.fields[idx as int]@ == f[idx as int]);
                let p = f.subrange(0, idx + 1);
                assert(p.drop_last() =~= f.subrange(0, idx as int));
                assert(p.last() == f[idx as int]);
                if idx == 0 {
                    assert(spec_join_comma(p) == f[0]);
                    assert(out@ =~= old(out)@ + spec_join_comma(p));
                } else {
                    assert(spec_join_comma(p) == spec_join_comma(f.subrange(0, idx as int))
                        + seq![COMMA] + f[idx as int]);
                    assert(out@ =~= old(out)@ + spec_join_comma(p));
                }
            }
            idx = idx + 1;
        }
        out.push(NEWLINE);
        proof {
            assert(f.subrange(0, f.len() as int) =~= f);
            assert(out@ =~= old(out)@ + spec_row_bytes(f));
        }
    }

    /// Interprets the fields of one row under the fixed column order,
    /// rejecting the first flaw found.
    pub fn to_transaction(&self) -> (r: Result<Transaction, ParsError>)
        ensures
            match spec_row_check(self.fields.deep_view()) {
                Some(err) => r matches Err(e) && wrong_format_matches(e, err),
                None => r matches Ok(tx) && tx_matches_fields(tx, self.fields.deep_view())
                    && tx.wf(),
            },
    {
        crate::fields::fields_to_transaction(&self.fields)
    }

    /// Builds the row a transaction is written as: numbers in decimal, the
    /// enumeration tokens, and the description wrapped in quotes.
    pub fn from_transaction(tx: &Transaction) -> (r: CsvTxRecord)
        ensures
            r.fields.deep_view() == spec_fields_of_tx(*tx),
    {
        let mut fields: Vec<Vec<u8>> = Vec::new();
        let mut tx_id_tok: Vec<u8> = Vec::new();
        push_u64_dec(&mut tx_id_tok, tx.tx_id);
        fields.push(tx_id_tok);
        fields.push(tx_type_token(tx.tx_type));
        let mut from_tok: Vec<u8> = Vec::new();
        push_u64_dec(&mut from_tok, tx.from_user_id);
        fields.push(from_tok);
        let mut to_tok: Vec<u8> = Vec::new();
        push_u64_dec(&mut to_tok, tx.to_user_id);
        fields.push(to_tok);
        let mut amount_tok: Vec<u8> = Vec::new();
        push_i64_dec(&mut amount_tok, tx.amount);
        fields.push(amount_tok);
        let mut ts_tok: Vec<u8> = Vec::new();
        push_u64_dec(&mut ts_tok, tx.timestamp.millis as u64);
        fields.push(ts_tok);
        fields.push(status_token(tx.status));
        let mut desc_tok: Vec<u8> = Vec::new();
        desc_tok.push(QUOTE);
        desc_tok.extend_from_slice(tx.description.as_slice());
        desc_tok.push(QUOTE);
        proof {
            assert(desc_tok@ =~= seq![QUOTE] + tx.description@ + seq![QUOTE]);
        }
        fields.push(desc_tok);
        proof {
            let f = fields.deep_view();
            let g = spec_fields_of_tx(*tx);
            assert(fields@.len() == 8);
            assert(forall|i: int| 0 <= i < 8 ==> f[i] == #[trigger] fields@[i]@);
            assert(f[0] =~= g[0]);
            assert(f[1] =~= g[1]);
            assert(f[2] =~= g[2]);
            assert(f[3] =~= g[3]);
            assert(f[4] =~= g[4]);
            assert(f[5] =~= g[5]);
            assert(f[6] =~= g[6]);
            assert(f[7] =~= g[7]);
            assert(f =~= g);
        }
        CsvTxRecord { fields }
    }
}

// ---------------------------------------------------------------------------
// Reader and writer
// ---------------------------------------------------------------------------

/// A reader that pulls transactions from an in-memory CSV stream: a header
/// line read and checked once, then one row per record.
pub struct CsvTxReader {
    pub parser: Parser,
    pub header_read: bool,
}

/// Reading one row from the given state and interpreting it: the exact
/// relation a read call establishes once the header is out of the way.
pub open spec fn csv_row_read(
    st: CsvState,
    inp: Seq<u8>,
    post: CsvTxReader,
    r: Result<Option<Transaction>, ParsError>,
) -> bool {
    let row = spec_csv_row(st, inp);
    &&& post.parser.state == row.st
    &&& post.parser.data@.skip(post.parser.pos as int) == row.rest
    &&& if row.fields.len() == 0 {
        r == Ok::<Option<Transaction>, ParsError>(None)
    } else {
        match spec_row_check(row.fields) {
            Some(err) => r matches Err(e) && wrong_format_matches(e, err),
            None => r matches Ok(Some(tx)) && tx_matches_fields(tx, row.fields) && tx.wf(),
        }
    }
}

/// The exact relation between a CSV reader before and after one read call,
/// and the call's result. Until a header line equal to the expected column
/// list has been consumed, a read checks the header first and rejects the
/// stream without looking at any row.
pub open spec fn csv_read_step(
    pre: CsvTxReader,
    post: CsvTxReader,
    r: Result<Option<Transaction>, ParsError>,
) -> bool {
    let inp = pre.parser.data@.skip(pre.parser.pos as int);
    &&& post.parser.data@ == pre.parser.data@
    &&& if !pre.header_read {
        let h = spec_csv_row(pre.parser.state, inp);
        if h.fields != spec_header_fields() {
            &&& r == Err::<Option<Transaction>, ParsError>(
                ParsError::WrongFormat(FormatReason::BadHeader),
            )
            &&& post.header_read == false
            &&& post.parser.state == h.st
            &&& post.parser.data@.skip(post.parser.pos as int) == h.rest
        } else {
            &&& post.header_read
            &&& csv_row_read(h.st, h.rest, post, r)
        }
    } else {
        &&& post.header_read
        &&& csv_row_read(pre.parser.state, inp, post, r)
    }
}

impl CsvTxReader {
    /// The position never runs past the end of the stream.
    pub open spec fn wf(self) -> bool {
        self.parser.wf()
    }

    /// Wraps an in-memory byte stream; the header has not been read yet.
    pub fn new(stream: Vec<u8>) -> (r: Result<CsvTxReader, ParsError>)
        ensures
            r matches Ok(rd) && rd.parser.data@ == stream@ && rd.parser.pos == 0
                && rd.parser.state == CsvState::WaitStartRecord && !rd.header_read && rd.wf(),
    {
        Ok(CsvTxReader { parser: Parser::new(stream), header_read: false })
    }

    /// Collects the values of one row, up to its end-of-line or the end of
    /// the stream.
    fn read_values(&mut self) -> (res: Vec<Vec<u8>>)
        requires
            old(self).wf(),
        ensures
            final(self).wf(),
            final(self).parser.data@ == old(self).parser.data@,
            final(self).header_read == old(self).header_read,
            ({
                let row = spec_csv_row(
                    old(self).parser.state,
                    old(self).parser.data@.skip(old(self).parser.pos as int),
                );
                &&& res.deep_view() == row.fields
                &&& final(self).parser.state == row.st
                &&& final(self).parser.data@.skip(final(self).parser.pos as int) == row.rest
            }),
    {
        let ghost row0 = spec_csv_row(
            old(self).parser.state,
            old(self).parser.data@.skip(old(self).parser.pos as int),
        );
        let mut res: Vec<Vec<u8>> = Vec::new();
        loop
            invariant
                self.wf(),
                self.parser.data@ == old(self).parser.data@,
                self.header_read == old(self).header_read,
                ({
                    let row = spec_csv_row(
                        self.parser.state,
                        self.parser.data@.skip(self.parser.pos as int),
                    );
                    &&& row0.fields == res.deep_view() + row.fields
                    &&& row0.st == row.st
                    &&& row0.rest == row.rest
                }),
            decreases self.parser.data@.len() - self.parser.pos,
        {
            let ghost st_pre = self.parser.state;
            let ghost inp_pre = self.parser.data@.skip(self.parser.pos as int);
            proof {
                lemma_csv_scan_len(st_pre, inp_pre, Seq::empty());
            }
            let tok = self.parser.get_next_token();
            match tok {
                CsvToken::Value(v) => {
                    let ghost vv = v@;
                    let ghost res_pre = res.deep_view();
                    res.push(v);
                    proof {
                        let sc = csv_scan(st_pre, inp_pre, Seq::empty());
                        let row_pre = spec_csv_row(st_pre, inp_pre);
                        let row_new = spec_csv_row(sc.st, sc.rest);
                        assert(row_pre.fields == seq![vv] + row_new.fields);
                        assert(res.deep_view() =~~= res_pre.push(vv));
                        assert(res.deep_view() + row_new.fields =~~= res_pre + (seq![vv]
                            + row_new.fields));
                    }
                },
                CsvToken::EndOfLine(v) => {
                    let ghost vv = v@;
                    let ghost res_pre = res.deep_view();
                    res.push(v);
                    proof {
                        let row_pre = spec_csv_row(st_pre, inp_pre);
                        assert(row_pre.fields == seq![vv]);
                        assert(res.deep_view() =~~= res_pre + seq![vv]);
                    }
                    return res;
                },
                CsvToken::EndOfStream(opt) => {
                    match opt {
                        Some(v) => {
                            let ghost vv = v@;
                            let ghost res_pre = res.deep_view();
                            res.push(v);
                            proof {
                                let row_pre = spec_csv_row(st_pre, inp_pre);
                                assert(row_pre.fields == seq![vv]);
                                assert(res.deep_view() =~~= res_pre + seq![vv]);
                            }
                            return res;
                        },
                        None => {
                            proof {
                                let row_pre = spec_csv_row(st_pre, inp_pre);
                                assert(row_pre.fields =~= Seq::<Seq<u8>>::empty());
                                assert(res.deep_view() + row_pre.fields =~= res.deep_view());
                            }
                            return res;
                        },
                    }
                },
            }
        }
    }

    /// Reads one line and demands that it equal the expected column list
    /// exactly, in content and order.
    fn read_header(&mut self) -> (r: Result<(), ParsError>)
        requires
            old(self).wf(),
            !old(self).header_read,
        ensures
            final(self).wf(),
            final(self).parser.data@ == old(self).parser.data@,
            ({
                let row = spec_csv_row(
                    old(self).parser.state,
                    old(self).parser.data@.skip(old(self).parser.pos as int),
                );
                &&& final(self).parser.state == row.st
                &&& final(self).parser.data@.skip(final(self).parser.pos as int) == row.rest
                &&& if row.fields == spec_header_fields() {
                    r == Ok::<(), ParsError>(()) && final(self).header_read
                } else {
                    r == Err::<(), ParsError>(ParsError::WrongFormat(FormatReason::BadHeader))
                        && !final(self).header_read
                }
            }),
    {
        let header = self.read_values();
        let ghost hv = header.deep_view();
        if header.len() != 8 {
            proof {
                assert(hv.len() != 8);
                assert(hv != spec_header_fields());
            }
            return Err(ParsError::WrongFormat(FormatReason::BadHeader));
        }
        proof {
            assert(forall|i: int|
                0 <= i < 8 ==> hv[i] == #[trigger] header@[i]@);
        }
        let keys: [FieldKey; 8] = [
            FieldKey::TxId,
            FieldKey::TxType,
            FieldKey::FromUserId,
            FieldKey::ToUserId,
            FieldKey::Amount,
            FieldKey::Timestamp,
            FieldKey::Status,
            FieldKey::Description,
        ];
        let mut i: usize = 0;
        while i < 8
            invariant
                0 <= i <= 8,
                header@.len() == 8,
                hv == header.deep_view(),
                keys@ =~= seq![
                    FieldKey::TxId,
                    FieldKey::TxType,
                    FieldKey::FromUserId,
                    FieldKey::ToUserId,
                    FieldKey::Amount,
                    FieldKey::Timestamp,
                    FieldKey::Status,
                    FieldKey::Description,
                ],
                forall|j: int| 0 <= j < i ==> hv[j] == #[trigger] spec_header_fields()[j],
            decreases 8 - i,
        {
            let expected = key_token(keys[i]);
            if !crate::utils::bytes_eq(header[i].as_slice(), expected.as_slice()) {
                proof {
                    assert(hv[i as int] != spec_header_fields()[i as int]);
                    assert(hv != spec_header_fields());
                }
                return Err(ParsError::WrongFormat(FormatReason::BadHeader));
            }
            i = i + 1;
        }
        proof {
            assert(hv =~= spec_header_fields());
        }
        self.header_read = true;
        Ok(())
    }

    /// Reads the next transaction: on the first call the header line is
    /// read and checked first, and a bad header rejects the stream before
    /// any row is looked at. An empty remainder reports no further records.
    pub fn read_transaction(&mut self) -> (r: Result<Option<Transaction>, ParsError>)
        requires
            old(self).wf(),
        ensures
            final(self).wf(),
            csv_read_step(*old(self), *final(self), r),
    {
        if !self.header_read {
            match self.read_header() {
                Ok(()) => {},
                Err(e) => {
                    return Err(e);
                },
            }
        }
        let fields = self.read_values();
        if fields.len() == 0 {
            return Ok(None);
        }
        let record = CsvTxRecord { fields };
        match record.to_transaction() {
            Ok(tx) => Ok(Some(tx)),
            Err(e) => Err(e),
        }
    }
}

/// A writer that appends transactions to an in-memory CSV stream, writing
/// the fixed header line once before the first row.
pub struct CsvTxWriter {
    pub stream: Vec<u8>,
    pub header_written: bool,
}

impl CsvTxWriter {
    /// Wraps an in-memory output buffer; the header has not been written
    /// yet.
    pub fn new(stream: Vec<u8>) -> (r: Result<CsvTxWriter, ParsError>)
        ensures
            r matches Ok(w) && w.stream@ == stream@ && !w.header_written,
    {
        Ok(CsvTxWriter { stream, header_written: false })
    }

    /// Appends the fixed header line and remembers that it was written.
    pub fn write_header(&mut self) -> (r: Result<(), ParsError>)
        ensures
            r == Ok::<(), ParsError>(()),
            final(self).stream@ == old(self).stream@ + spec_header_bytes(),
            final(self).header_written,
    {
        let mut fields: Vec<Vec<u8>> = Vec::new();
        fields.push(key_token(FieldKey::TxId));
        fields.push(key_token(FieldKey::TxType));
        fields.push(key_token(FieldKey::FromUserId));
        fields.push(key_token(FieldKey::ToUserId));
        fields.push(key_token(FieldKey::Amount));
        fields.push(key_token(FieldKey::Timestamp));
        fields.push(key_token(FieldKey::Status));
        fields.push(key_token(FieldKey::Description));
        let record = CsvTxRecord { fields };
        proof {
            let f = record.fields.deep_view();
            assert(forall|i: int| 0 <= i < 8 ==> f[i] == #[trigger] record.fields@[i]@);
            assert(f =~= spec_header_fields());
        }
        record.serialize(&mut self.stream);
        self.header_written = true;
        Ok(())
    }

    /// Appends one transaction as a row, preceded by the header line if no
    /// row has been written yet.
    pub fn write_transaction(&mut self, data: &Transaction) -> (r: Result<(), ParsError>)
        ensures
            r == Ok::<(), ParsError>(()),
            final(self).header_written,
            final(self).stream@ == old(self).stream@ + (if old(self).header_written {
                Seq::<u8>::empty()
            } else {
                spec_header_bytes()
            }) + spec_row_bytes(spec_fields_of_tx(*data)),
    {
        if !self.header_written {
            let _ = self.write_header();
        }
        let record = CsvTxRecord::from_transaction(data);
        record.serialize(&mut self.stream);
        proof {
            if old(self).header_written {
                assert(old(self).stream@ + Seq::<u8>::empty() =~= old(self).stream@);
            }
        }
        Ok(())
    }
}


/// A row with at least one field consumed at least one byte.
pub proof fn lemma_csv_row_progress(st: CsvState, inp: Seq<u8>)
    ensures
        spec_csv_row(st, inp).fields.len() > 0 ==> spec_csv_row(st, inp).rest.len() < inp.len(),
{
    let sc = csv_scan(st, inp, Seq::empty());
    lemma_csv_scan_len(st, inp, Seq::empty());
    match sc.tok {
        CsvTokenV::Value(_) => {
            lemma_csv_row_len(sc.st, sc.rest);
        },
        CsvTokenV::EndOfLine(_) => {},
        CsvTokenV::EndOfStream(o) => {
            if o is Some {
                assert(inp.len() > 0) by {
                    if inp.len() == 0 {
                        assert(spec_trim(Seq::<u8>::empty()).len() == 0);
                    }
                }
            }
        },
    }
}

/// A read call that produced a record consumed at least one byte of the
/// stream.
pub proof fn lemma_csv_read_progress(
    pre: CsvTxReader,
    post: CsvTxReader,
    tx: Transaction,
)
    requires
        csv_read_step(pre, post, Ok(Some(tx))),
    ensures
        post.parser.data@ == pre.parser.data@,
        post.parser.data@.skip(post.parser.pos as int).len() < pre.parser.data@.skip(
            pre.parser.pos as int,
        ).len(),
{
    let inp = pre.parser.data@.skip(pre.parser.pos as int);
    if !pre.header_read {
        let h = spec_csv_row(pre.parser.state, inp);
        assert(h.fields == spec_header_fields());
        assert(h.fields.len() == 8);
        lemma_csv_row_progress(pre.parser.state, inp);
        lemma_csv_row_len(pre.parser.state, inp);
        let row = spec_csv_row(h.st, h.rest);
        assert(row.fields.len() > 0);
        lemma_csv_row_progress(h.st, h.rest);
    } else {
        let row = spec_csv_row(pre.parser.state, inp);
        assert(row.fields.len() > 0);
        lemma_csv_row_progress(pre.parser.state, inp);
    }
}


// ---------------------------------------------------------------------------
// Round trip
// ---------------------------------------------------------------------------

/// A value the tokenizer hands back unchanged when it stands unquoted: at
/// least one byte, none of them whitespace, a comma, or a newline, and not
/// opening with a quote.
pub open spec fn plain_token(c: Seq<u8>) -> bool {
    &&& c.len() > 0
    &&& c[0] != QUOTE
    &&& forall|i: int|
        0 <= i < c.len() ==> !crate::utils::is_ws(#[trigger] c[i]) && c[i] != COMMA && c[i]
            != NEWLINE
}

/// A value the tokenizer hands back unchanged when it stands quoted: a
/// quote pair around text free of quotes and backslashes.
pub open spec fn quoted_token(c: Seq<u8>) -> bool {
    &&& c.len() >= 2
    &&& c[0] == QUOTE
    &&& c[c.len() - 1] == QUOTE
    &&& forall|i: int| 1 <= i < c.len() - 1 ==> #[trigger] c[i] != QUOTE && c[i] != BACKSLASH
}

/// A value that comes back from the tokenizer exactly as printed.
pub open spec fn token_ok(c: Seq<u8>) -> bool {
    plain_token(c) || quoted_token(c)
}

proof fn lemma_trim_nows_front(c: Seq<u8>)
    requires
        c.len() == 0 || !crate::utils::is_ws(c[0]),
    ensures
        crate::utils::spec_trim_front(c) == c,
{
}

proof fn lemma_trim_nows_back(c: Seq<u8>)
    requires
        c.len() == 0 || !crate::utils::is_ws(c[c.len() - 1]),
    ensures
        crate::utils::spec_trim_back(c) == c,
{
}

proof fn lemma_trim_edges(c: Seq<u8>)
    requires
        c.len() > 0,
        !crate::utils::is_ws(c[0]),
        !crate::utils::is_ws(c[c.len() - 1]),
    ensures
        spec_trim(c) == c,
{
    lemma_trim_nows_front(c);
    lemma_trim_nows_back(c);
}

proof fn lemma_scan_regular(c: Seq<u8>, buf: Seq<u8>, rest: Seq<u8>)
    requires
        forall|i: int| 0 <= i < c.len() ==> #[trigger] c[i] != COMMA && c[i] != NEWLINE,
        rest.len() > 0,
        rest[0] == COMMA || rest[0] == NEWLINE,
    ensures
        csv_scan(CsvState::WaitEndRegular, c + rest, buf) == (if rest[0] == COMMA {
            CsvScan {
                tok: CsvTokenV::Value(spec_trim(buf + c)),
                st: CsvState::WaitStartValue,
                rest: rest.drop_first(),
            }
        } else {
            CsvScan {
                tok: CsvTokenV::EndOfLine(spec_trim(buf + c)),
                st: CsvState::WaitStartRecord,
                rest: rest.drop_first(),
            }
        }),
    decreases c.len(),
{
    if c.len() == 0 {
        assert(c + rest =~= rest);
        assert(buf + c =~= buf);
    } else {
        let inp = c + rest;
        assert(inp[0] == c[0]);
        assert(inp.drop_first() =~= c.drop_first() + rest);
        lemma_scan_regular(c.drop_first(), buf.push(c[0]), rest);
        assert(buf.push(c[0]) + c.drop_first() =~= buf + c);
    }
}

proof fn lemma_scan_string_body(m: Seq<u8>, buf: Seq<u8>, rest: Seq<u8>)
    requires
        forall|i: int| 0 <= i < m.len() ==> #[trigger] m[i] != QUOTE && m[i] != BACKSLASH,
        rest.len() > 0,
        rest[0] == QUOTE,
    ensures
        csv_scan(CsvState::WaitEndString, m + rest, buf) == csv_scan(
            CsvState::WaitEndRegular,
            rest.drop_first(),
            buf + m + seq![QUOTE],
        ),
    decreases m.len(),
{
    if m.len() == 0 {
        assert(m + rest =~= rest);
        assert(buf.push(QUOTE) =~= buf + m + seq![QUOTE]);
    } else {
        let inp = m + rest;
        assert(inp[0] == m[0]);
        assert(inp.drop_first() =~= m.drop_first() + rest);
        lemma_scan_string_body(m.drop_first(), buf.push(m[0]), rest);
        assert(buf.push(m[0]) + m.drop_first() =~= buf + m);
    }
}

/// Scanning one printed value from the head of a stream hands it back
/// unchanged, consuming its delimiter.
proof fn lemma_scan_token(st: CsvState, c: Seq<u8>, rest: Seq<u8>)
    requires
        st == CsvState::WaitStartRecord || st == CsvState::WaitStartValue,
        token_ok(c),
        rest.len() > 0,
        rest[0] == COMMA || rest[0] == NEWLINE,
    ensures
        csv_scan(st, c + rest, Seq::empty()) == (if rest[0] == COMMA {
            CsvScan {
                tok: CsvTokenV::Value(c),
                st: CsvState::WaitStartValue,
                rest: rest.drop_first(),
            }
        } else {
            CsvScan {
                tok: CsvTokenV::EndOfLine(c),
                st: CsvState::WaitStartRecord,
                rest: rest.drop_first(),
            }
        }),
{
    let inp = c + rest;
    assert(inp[0] == c[0]);
    assert(inp.drop_first() =~= c.drop_first() + rest);
    if plain_token(c) {
        assert(!crate::utils::is_ws(c[0]));
        assert(c[0] != 0x20 && c[0] != 0x0a);
        lemma_scan_regular(c.drop_first(), Seq::empty().push(c[0]), rest);
        assert(Seq::empty().push(c[0]) + c.drop_first() =~= c);
        lemma_trim_edges(c);
    } else {
        let m = c.subrange(1, c.len() - 1);
        assert(c[0] == QUOTE);
        assert(inp.drop_first() =~= m + (seq![QUOTE] + rest));
        assert((seq![QUOTE] + rest)[0] == QUOTE);
        lemma_scan_string_body(m, Seq::empty().push(QUOTE), seq![QUOTE] + rest);
        assert((seq![QUOTE] + rest).drop_first() =~= rest);
        assert(Seq::empty().push(QUOTE) + m + seq![QUOTE] =~= c);
        lemma_scan_regular(Seq::empty(), c, rest);
        assert(Seq::<u8>::empty() + rest =~= rest);
        lemma_trim_edges(c);
    }
}

/// Splitting the joined fields at the first comma.
proof fn lemma_join_front(f: Seq<Seq<u8>>)
    requires
        f.len() >= 2,
    ensures
        spec_join_comma(f) == f[0] + seq![COMMA] + spec_join_comma(f.drop_first()),
    decreases f.len(),
{
    if f.len() == 2 {
        assert(f.drop_last() =~= seq![f[0]]);
        assert(spec_join_comma(seq![f[0]]) == f[0]);
        assert(f.drop_first() =~= seq![f[1]]);
        assert(f.last() == f[1]);
    } else {
        lemma_join_front(f.drop_last());
        assert(f.drop_last()[0] == f[0]);
        assert(f.drop_last().drop_first() =~= f.drop_first().drop_last());
        assert(f.drop_first().last() == f.last());
        assert((f[0] + seq![COMMA] + spec_join_comma(f.drop_first().drop_last())) + seq![COMMA]
            + f.last() =~= f[0] + seq![COMMA] + (spec_join_comma(f.drop_first().drop_last())
            + seq![COMMA] + f.drop_first().last()));
    }
}

/// Tokenizing a printed row of well-behaved values recovers exactly those
/// values and leaves exactly the trailing input.
pub proof fn lemma_csv_row_of_tokens(st: CsvState, f: Seq<Seq<u8>>, tail: Seq<u8>)
    requires
        st == CsvState::WaitStartRecord || st == CsvState::WaitStartValue,
        f.len() >= 1,
        forall|i: int| 0 <= i < f.len() ==> token_ok(#[trigger] f[i]),
    ensures
        spec_csv_row(st, spec_row_bytes(f) + tail) == (CsvRow {
            fields: f,
            st: CsvState::WaitStartRecord,
            rest: tail,
        }),
    decreases f.len(),
{
    if f.len() == 1 {
        assert(spec_join_comma(f) == f[0]);
        assert(spec_row_bytes(f) + tail =~= f[0] + (seq![NEWLINE] + tail));
        assert((seq![NEWLINE] + tail)[0] == NEWLINE);
        lemma_scan_token(st, f[0], seq![NEWLINE] + tail);
        assert((seq![NEWLINE] + tail).drop_first() =~= tail);
        assert(spec_csv_row(st, spec_row_bytes(f) + tail).fields =~= f);
    } else {
        lemma_join_front(f);
        let restbytes = spec_join_comma(f.drop_first()) + seq![NEWLINE] + tail;
        assert(spec_row_bytes(f) + tail =~= f[0] + (seq![COMMA] + restbytes));
        assert((seq![COMMA] + restbytes)[0] == COMMA);
        lemma_scan_token(st, f[0], seq![COMMA] + restbytes);
        assert((seq![COMMA] + restbytes).drop_first() =~= restbytes);
        lemma_csv_row_of_tokens(CsvState::WaitStartValue, f.drop_first(), tail);
        assert(restbytes =~= spec_row_bytes(f.drop_first()) + tail);
        assert(spec_csv_row(st, spec_row_bytes(f) + tail).fields =~= seq![f[0]]
            + f.drop_first());
        assert(seq![f[0]] + f.drop_first() =~= f);
    }
}

/// Every digit string is a plain token.
proof fn lemma_digits_plain(c: Seq<u8>)
    requires
        c.len() > 0,
        crate::numbers::all_digits(c),
    ensures
        plain_token(c),
{
    assert(forall|i: int|
        0 <= i < c.len() ==> crate::numbers::is_digit(#[trigger] c[i]));
}

/// The decimal rendering of a signed value is a plain token.
proof fn lemma_i64_dec_plain(x: i64)
    ensures
        plain_token(spec_i64_dec(x)),
{
    if x >= 0 {
        crate::numbers::lemma_dec_digits_all_digits(x as nat);
        lemma_digits_plain(spec_dec_digits(x as nat));
    } else {
        let m = (-(x as int)) as nat;
        crate::numbers::lemma_dec_digits_all_digits(m);
        let c = spec_i64_dec(x);
        assert(c[0] == 0x2d);
        assert(forall|i: int|
            1 <= i < c.len() ==> crate::numbers::is_digit(#[trigger] spec_dec_digits(m)[i - 1])
                && c[i] == spec_dec_digits(m)[i - 1]);
    }
}

/// Law: a transaction whose description keeps clear of the escape
/// machinery (no quotes, backslashes, or newlines in its text) is printed
/// as a row that tokenizes back to exactly its eight field tokens, and
/// those tokens pass every check and denote the original transaction, with
/// any trailing input untouched.
#[verifier::rlimit(60)]
pub proof fn lemma_csv_round_trip(tx: Transaction, tail: Seq<u8>)
    requires
        tx.wf(),
        forall|i: int|
            0 <= i < tx.description@.len() ==> #[trigger] tx.description@[i] != QUOTE
                && tx.description@[i] != BACKSLASH && tx.description@[i] != NEWLINE,
    ensures
        spec_csv_row(CsvState::WaitStartRecord, spec_row_bytes(spec_fields_of_tx(tx)) + tail)
            == (CsvRow {
            fields: spec_fields_of_tx(tx),
            st: CsvState::WaitStartRecord,
            rest: tail,
        }),
        spec_row_check(spec_fields_of_tx(tx)) is None,
        tx_matches_fields(tx, spec_fields_of_tx(tx)),
{
    let f = spec_fields_of_tx(tx);
    crate::numbers::lemma_dec_digits_all_digits(tx.tx_id as nat);
    crate::numbers::lemma_dec_digits_all_digits(tx.from_user_id as nat);
    crate::numbers::lemma_dec_digits_all_digits(tx.to_user_id as nat);
    crate::numbers::lemma_dec_digits_all_digits((tx.timestamp.millis as u64) as nat);
    lemma_digits_plain(f[0]);
    lemma_digits_plain(f[2]);
    lemma_digits_plain(f[3]);
    lemma_digits_plain(f[5]);
    lemma_i64_dec_plain(tx.amount);
    assert(plain_token(spec_tx_type_token(tx.tx_type)));
    assert(plain_token(spec_status_token(tx.status)));
    assert(quoted_token(f[7])) by {
        assert(f[7].len() == tx.description@.len() + 2);
        assert(f[7][0] == QUOTE);
        assert(f[7][f[7].len() - 1] == QUOTE);
        assert(forall|i: int|
            1 <= i < f[7].len() - 1 ==> #[trigger] f[7][i] == tx.description@[i - 1]);
    }
    assert(forall|i: int| 0 <= i < f.len() ==> token_ok(#[trigger] f[i]));
    lemma_csv_row_of_tokens(CsvState::WaitStartRecord, f, tail);
    crate::fields::lemma_fields_of_tx_ok(tx);
}

/// Tokenizing the printed header line recovers exactly the expected column
/// names, leaving the trailing input untouched.
pub proof fn lemma_csv_header_round_trip(tail: Seq<u8>)
    ensures
        spec_csv_row(CsvState::WaitStartRecord, spec_header_bytes() + tail) == (CsvRow {
            fields: spec_header_fields(),
            st: CsvState::WaitStartRecord,
            rest: tail,
        }),
{
    let h = spec_header_fields();
    assert(forall|i: int| 0 <= i < h.len() ==> token_ok(#[trigger] h[i])) by {
        assert(plain_token(h[0]));
        assert(plain_token(h[1]));
        assert(plain_token(h[2]));
        assert(plain_token(h[3]));
        assert(plain_token(h[4]));
        assert(plain_token(h[5]));
        assert(plain_token(h[6]));
        assert(plain_token(h[7]));
    }
    lemma_csv_row_of_tokens(CsvState::WaitStartRecord, h, tail);
}


/// Law: a read call on a CSV stream that begins with the expected header
/// (unless already consumed) and then the printed row of a representable
/// transaction with a well-behaved description must return that very
/// record, leaving exactly the trailing input.
pub proof fn lemma_csv_read_round_trip(
    pre: CsvTxReader,
    post: CsvTxReader,
    r: Result<Option<Transaction>, ParsError>,
    tx: Transaction,
    tail: Seq<u8>,
)
    requires
        tx.wf(),
        forall|i: int|
            0 <= i < tx.description@.len() ==> #[trigger] tx.description@[i] != QUOTE
                && tx.description@[i] != BACKSLASH && tx.description@[i] != NEWLINE,
        pre.parser.state == CsvState::WaitStartRecord,
        pre.parser.data@.skip(pre.parser.pos as int) == (if pre.header_read {
            spec_row_bytes(spec_fields_of_tx(tx)) + tail
        } else {
            spec_header_bytes() + (spec_row_bytes(spec_fields_of_tx(tx)) + tail)
        }),
        csv_read_step(pre, post, r),
    ensures
        r matches Ok(rr) && rr matches Some(tx2) && crate::transaction::tx_equal(tx2, tx),
        post.parser.data@.skip(post.parser.pos as int) == tail,
        post.header_read,
        post.parser.state == CsvState::WaitStartRecord,
{
    let f = spec_fields_of_tx(tx);
    let inp = pre.parser.data@.skip(pre.parser.pos as int);
    lemma_csv_round_trip(tx, tail);
    if !pre.header_read {
        lemma_csv_header_round_trip(spec_row_bytes(f) + tail);
        let h = spec_csv_row(pre.parser.state, inp);
        assert(h.fields == spec_header_fields());
        assert(h.rest == spec_row_bytes(f) + tail);
        assert(h.st == CsvState::WaitStartRecord);
    }
    assert(f.len() == 8);
    match r {
        Ok(Some(tx2)) => {
            crate::fields::lemma_fields_decode_unique(tx2, tx, f);
        },
        _ => {},
    }
}

} // verus!
