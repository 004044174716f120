use vstd::prelude::*;
use crate::error::FieldKey;
use crate::error::FormatReason;
use crate::error::ParsError;
use crate::fields::spec_key_token;
use crate::fields::key_token;
use crate::fields::spec_key_of;
use crate::fields::key_of_token;
use crate::fields::spec_tx_type_token;
use crate::fields::tx_type_token;
use crate::fields::spec_status_token;
use crate::fields::status_token;
use crate::fields::RowErr;
use crate::fields::wrong_format_matches;
use crate::fields::spec_row_check;
use crate::fields::tx_matches_fields;
use crate::fields::spec_fields_of_tx;
use crate::fields::fields_to_transaction;
use crate::numbers::spec_dec_digits;
use crate::numbers::spec_i64_dec;
use crate::numbers::push_u64_dec;
use crate::numbers::push_i64_dec;
use crate::transaction::Transaction;
use crate::utils::read_byte;
use crate::utils::trim_bytes;
use crate::utils::spec_trim;
use crate::utils::QUOTE;
use crate::utils::COLON;
use crate::utils::NEWLINE;
use crate::utils::SPACE;
use crate::utils::BACKSLASH;
use crate::utils::HASH;

verus! {

/// The state a comment interrupted, resumed at the end of the line.
#[derive(Clone, Copy, PartialEq, Eq, Structural, Debug)]
pub enum PrevParserState {
    WaitStartRecord,
    WaitStartKey,
}

/// The states of the block tokenizer.
#[derive(Clone, Copy, PartialEq, Eq, Structural, Debug)]
pub enum TextState {
    /// Before the first key of a block; blank space and empty lines are
    /// skipped.
    WaitStartRecord,
    /// Before a key inside a block; an empty line here ends the block.
    WaitStartKey,
    /// Inside a key, scanning for the colon that ends it.
    WaitEndKey,
    /// Before the first byte of a value; spaces are skipped.
    WaitStartValue,
    /// Inside an unquoted value, which a newline ends.
    WaitEndRegular,
    /// Inside a quoted section, where delimiters lose their meaning.
    WaitEndString,
    /// Inside a comment, discarded to the end of the line.
    WaitEndComment(PrevParserState),
    /// Immediately after a backslash inside a quoted section; the next byte
    /// is taken literally.
    WaitEscaped,
}

/// A token produced by the block tokenizer.
pub enum TextToken {
    /// One `key: value` line.
    KeyValue((Vec<u8>, Vec<u8>)),
    /// An empty line: the current block is complete.
    SplitRecords,
    /// The stream is exhausted, with the trailing partial line if one was
    /// accumulated.
    EndOfStream(Option<(Vec<u8>, Vec<u8>)>),
}

/// The mathematical shadow of a token.
pub enum TextTokenV {
    KeyValue((Seq<u8>, Seq<u8>)),
    SplitRecords,
    EndOfStream(Option<(Seq<u8>, Seq<u8>)>),
}

impl View for TextToken {
    type V = TextTokenV;

    open spec fn view(&self) -> TextTokenV {
        match self {
            TextToken::KeyValue(kv) => TextTokenV::KeyValue((kv.0@, kv.1@)),
            TextToken::SplitRecords => TextTokenV::SplitRecords,
            TextToken::EndOfStream(o) => TextTokenV::EndOfStream(
                match o {
                    Some(kv) => Some((kv.0@, kv.1@)),
                    None => None,
                },
            ),
        }
    }
}

/// What one run of the tokenizer leaves behind.
pub struct TextScan {
    pub tok: TextTokenV,
    pub st: TextState,
    pub rest: Seq<u8>,
}

/// The block tokenizer as a function: from a state, the remaining input and
/// the key and value bytes accumulated so far, to the next token. A `#`
/// outside quoted text discards the rest of its line and resumes the state
/// the comment interrupted; keys end at a colon, quoted values follow the
/// same backslash-escape rule as CSV, and both sides come out trimmed.
pub open spec fn text_scan(st: TextState, inp: Seq<u8>, kbuf: Seq<u8>, vbuf: Seq<u8>) -> TextScan
    decreases inp.len(),
{
    if inp.len() == 0 {
        let kt = spec_trim(kbuf);
        let vt = spec_trim(vbuf);
        TextScan {
            tok: TextTokenV::EndOfStream(
                if kt.len() == 0 && vt.len() == 0 {
                    None
                } else {
                    Some((kt, vt))
                },
            ),
            st,
            rest: inp,
        }
    } else {
        let b = inp[0];
        let tail = inp.drop_first();
        match st {
            TextState::WaitStartRecord => {
                if b == SPACE || b == NEWLINE {
                    text_scan(st, tail, kbuf, vbuf)
                } else if b == HASH {
                    text_scan(
                        TextState::WaitEndComment(PrevParserState::WaitStartRecord),
                        tail,
                        kbuf,
                        vbuf,
                    )
                } else {
                    text_scan(TextState::WaitEndKey, tail, kbuf.push(b), vbuf)
                }
            },
            TextState::WaitStartKey => {
                if b == SPACE {
                    text_scan(st, tail, kbuf, vbuf)
                } else if b == HASH {
                    text_scan(
                        TextState::WaitEndComment(PrevParserState::WaitStartKey),
                        tail,
                        kbuf,
                        vbuf,
                    )
                } else if b == NEWLINE {
                    TextScan {
                        tok: TextTokenV::SplitRecords,
                        st: TextState::WaitStartRecord,
                        rest: tail,
                    }
                } else {
                    text_scan(TextState::WaitEndKey, tail, kbuf.push(b), vbuf)
                }
            },
            TextState::WaitEndKey => {
                if b == COLON {
                    text_scan(TextState::WaitStartValue, tail, kbuf, vbuf)
                } else {
                    text_scan(st, tail, kbuf.push(b), vbuf)
                }
            },
            TextState::WaitStartValue => {
                if b == SPACE {
                    text_scan(st, tail, kbuf, vbuf)
                } else if b == QUOTE {
                    text_scan(TextState::WaitEndString, tail, kbuf, vbuf.push(b))
                } else {
                    text_scan(TextState::WaitEndRegular, tail, kbuf, vbuf.push(b))
                }
            },
            TextState::WaitEndRegular => {
                if b == NEWLINE {
                    TextScan {
                        tok: TextTokenV::KeyValue((spec_trim(kbuf), spec_trim(vbuf))),
                        st: TextState::WaitStartKey,
                        rest: tail,
                    }
                } else {
                    text_scan(st, tail, kbuf, vbuf.push(b))
                }
            },
            TextState::WaitEndString => {
                if b == BACKSLASH {
                    text_scan(TextState::WaitEscaped, tail, kbuf, vbuf)
                } else if b == QUOTE {
                    text_scan(TextState::WaitEndRegular, tail, kbuf, vbuf.push(b))
                } else {
                    text_scan(st, tail, kbuf, vbuf.push(b))
                }
            },
            TextState::WaitEscaped => text_scan(TextState::WaitEndString, tail, kbuf, vbuf.push(b)),
            TextState::WaitEndComment(prev) => {
                if b == NEWLINE {
                    match prev {
                        PrevParserState::WaitStartRecord => text_scan(
                            TextState::WaitStartRecord,
                            tail,
                            kbuf,
                            vbuf,
                        ),
                        PrevParserState::WaitStartKey => text_scan(
                            TextState::WaitStartKey,
                            tail,
                            kbuf,
                            vbuf,
                        ),
                    }
                } else {
                    text_scan(st, tail, kbuf, vbuf)
                }
            },
        }
    }
}

/// The tokenizer consumes input: what it leaves is a suffix, a strict one
/// unless the stream ran out, in which case nothing is left.
pub proof fn lemma_text_scan_len(st: TextState, inp: Seq<u8>, kbuf: Seq<u8>, vbuf: Seq<u8>)
    ensures
        text_scan(st, inp, kbuf, vbuf).rest.len() <= inp.len(),
        text_scan(st, inp, kbuf, vbuf).tok is EndOfStream ==> text_scan(
            st,
            inp,
            kbuf,
            vbuf,
        ).rest.len() == 0,
        !(text_scan(st, inp, kbuf, vbuf).tok is EndOfStream) ==> text_scan(
            st,
            inp,
            kbuf,
            vbuf,
        ).rest.len() < inp.len(),
    decreases inp.len(),
{
    if inp.len() != 0 {
        let b = inp[0];
        let tail = inp.drop_first();
        match st {
            TextState::WaitStartRecord => {
                lemma_text_scan_len(st, tail, kbuf, vbuf);
                lemma_text_scan_len(
                    TextState::WaitEndComment(PrevParserState::WaitStartRecord),
                    tail,
                    kbuf,
                    vbuf,
                );
                lemma_text_scan_len(TextState::WaitEndKey, tail, kbuf.push(b), vbuf);
            },
            TextState::WaitStartKey => {
                lemma_text_scan_len(st, tail, kbuf, vbuf);
                lemma_text_scan_len(
                    TextState::WaitEndComment(PrevParserState::WaitStartKey),
                    tail,
                    kbuf,
                    vbuf,
                );
                lemma_text_scan_len(TextState::WaitEndKey, tail, kbuf.push(b), vbuf);
            },
            TextState::WaitEndKey => {
                lemma_text_scan_len(TextState::WaitStartValue, tail, kbuf, vbuf);
                lemma_text_scan_len(st, tail, kbuf.push(b), vbuf);
            },
            TextState::WaitStartValue => {
                lemma_text_scan_len(st, tail, kbuf, vbuf);
                lemma_text_scan_len(TextState::WaitEndString, tail, kbuf, vbuf.push(b));
                lemma_text_scan_len(TextState::WaitEndRegular, tail, kbuf, vbuf.push(b));
            },
            TextState::WaitEndRegular => {
                if b != NEWLINE {
                    lemma_text_scan_len(st, tail, kbuf, vbuf.push(b));
                }
            },
            TextState::WaitEndString => {
                lemma_text_scan_len(TextState::WaitEscaped, tail, kbuf, vbuf);
                lemma_text_scan_len(TextState::WaitEndRegular, tail, kbuf, vbuf.push(b));
                lemma_text_scan_len(st, tail, kbuf, vbuf.push(b));
            },
            TextState::WaitEscaped => {
                lemma_text_scan_len(TextState::WaitEndString, tail, kbuf, vbuf.push(b));
            },
            TextState::WaitEndComment(prev) => {
                lemma_text_scan_len(TextState::WaitStartRecord, tail, kbuf, vbuf);
                lemma_text_scan_len(TextState::WaitStartKey, tail, kbuf, vbuf);
                lemma_text_scan_len(st, tail, kbuf, vbuf);
            },
        }
    }
}

/// The byte-level tokenizer over an in-memory stream.
pub struct Parser {
    pub state: TextState,
    pub data: Vec<u8>,
    pub pos: usize,
}

impl Parser {
    /// The position never runs past the end of the stream.
    pub open spec fn wf(self) -> bool {
        self.pos <= self.data@.len()
    }

    /// Starts tokenizing at the head of a block.
    pub fn new(stream: Vec<u8>) -> (r: Parser)
        ensures
            r.state == TextState::WaitStartRecord,
            r.data@ == stream@,
            r.pos == 0,
            r.wf(),
    {
        Parser { state: TextState::WaitStartRecord, data: stream, pos: 0 }
    }

    /// Produces the next token, exactly as the tokenizer function reads it
    /// from the unconsumed input.
    pub fn get_next_token(&mut self) -> (t: TextToken)
        requires
            old(self).wf(),
        ensures
            final(self).wf(),
            final(self).data@ == old(self).data@,
            ({
                let sc = text_scan(
                    old(self).state,
                    old(self).data@.skip(old(self).pos as int),
                    Seq::empty(),
                    Seq::empty(),
                );
                &&& t@ == sc.tok
                &&& final(self).state == sc.st
                &&& final(self).data@.skip(final(self).pos as int) == sc.rest
            }),
    {
        let ghost sc = text_scan(
            old(self).state,
            old(self).data@.skip(old(self).pos as int),
            Seq::empty(),
            Seq::empty(),
        );
        let mut key_buf: Vec<u8> = Vec::new();
        let mut val_buf: Vec<u8> = Vec::new();
        loop
            invariant
                self.wf(),
                self.data@ == old(self).data@,
                text_scan(self.state, self.data@.skip(self.pos as int), key_buf@, val_buf@) == sc,
            decreases self.data@.len() - self.pos,
        {
            let ghost inp = self.data@.skip(self.pos as int);
            let byte = match read_byte(&self.data, &mut self.pos) {
                Ok(b) => b,
                Err(_) => {
                    proof {
                        assert(inp.len() == 0);
                    }
                    let key_text = trim_bytes(&key_buf);
                    let val_text = trim_bytes(&val_buf);
                    if key_text.len() == 0 && val_text.len() == 0 {
                        return TextToken::EndOfStream(None);
                    } else {
                        return TextToken::EndOfStream(Some((key_text, val_text)));
                    }
                },
            };
            proof {
                assert(inp.len() > 0);
                assert(inp[0] == byte);
                assert(inp.drop_first() =~= self.data@.skip(self.pos as int));
            }
            match self.state {
                TextState::WaitStartRecord => {
                    if byte == SPACE || byte == NEWLINE {
                        continue;
                    }
                    if byte == HASH {
                        self.state = TextState::WaitEndComment(PrevParserState::WaitStartRecord);
                        continue;
                    }
                    key_buf.push(byte);
                    self.state = TextState::WaitEndKey;
                },
                TextState::WaitStartKey => {
                    if byte == SPACE {
                        continue;
                    }
                    if byte == HASH {
                        self.state = TextState::WaitEndComment(PrevParserState::WaitStartKey);
                        continue;
                    }
                    if byte == NEWLINE {
                        self.state = TextState::WaitStartRecord;
                        return TextToken::SplitRecords;
                    }
                    key_buf.push(byte);
                    self.state = TextState::WaitEndKey;
                },
                TextState::WaitEndKey => {
                    if byte == COLON {
                        self.state = TextState::WaitStartValue;
                        continue;
                    }
                    key_buf.push(byte);
                },
                TextState::WaitStartValue => {
                    if byte == SPACE {
                        continue;
                    }
                    val_buf.push(byte);
                    if byte == QUOTE {
                        self.state = TextState::WaitEndString;
                    } else {
                        self.state = TextState::WaitEndRegular;
                    }
                },
                TextState::WaitEndRegular => {
                    if byte == NEWLINE {
                        let key_text = trim_bytes(&key_buf);
                        let val_text = trim_bytes(&val_buf);
                        self.state = TextState::WaitStartKey;
                        return TextToken::KeyValue((key_text, val_text));
                    }
                    val_buf.push(byte);
                },
                TextState::WaitEndString => {
                    if byte == BACKSLASH {
                        self.state = TextState::WaitEscaped;
                        continue;
                    }
                    val_buf.push(byte);
                    if byte == QUOTE {
                        self.state = TextState::WaitEndRegular;
                    }
                },
                TextState::WaitEscaped => {
                    val_buf.push(byte);
                    self.state = TextState::WaitEndString;
                },
                TextState::WaitEndComment(prev) => {
                    if byte == NEWLINE {
                        match prev {
                            PrevParserState::WaitStartRecord => {
                                self.state = TextState::WaitStartRecord;
                            },
                            PrevParserState::WaitStartKey => {
                                self.state = TextState::WaitStartKey;
                            },
                        }
                    }
                },
            }
        }
    }
}

// ---------------------------------------------------------------------------
// Blocks
// ---------------------------------------------------------------------------

/// The key and value byte sequences of a list of pairs.
pub open spec fn spec_pairs_view(v: Seq<(Vec<u8>, Vec<u8>)>) -> Seq<(Seq<u8>, Seq<u8>)> {
    Seq::new(v.len(), |i: int| (v[i].0@, v[i].1@))
}

/// What reading one block leaves behind: its key-value pairs in order of
/// appearance, the tokenizer state, and the unconsumed input.
pub struct TextBlock {
    pub pairs: Seq<(Seq<u8>, Seq<u8>)>,
    pub st: TextState,
    pub rest: Seq<u8>,
}

/// Reads key-value lines until an empty line ends the block or the stream
/// runs out. A trailing partial line at end of stream counts as a final
/// pair.
pub open spec fn spec_text_block(st: TextState, inp: Seq<u8>) -> TextBlock
    decreases inp.len(),
    via spec_text_block_dec
{
    let sc = text_scan(st, inp, Seq::empty(), Seq::empty());
    match sc.tok {
        TextTokenV::KeyValue(kv) => {
            let r = spec_text_block(sc.st, sc.rest);
            TextBlock { pairs: seq![kv] + r.pairs, st: r.st, rest: r.rest }
        },
        TextTokenV::SplitRecords => TextBlock { pairs: seq![], st: sc.st, rest: sc.rest },
        TextTokenV::EndOfStream(o) => TextBlock {
            pairs: match o {
                Some(kv) => seq![kv],
                None => seq![],
            },
            st: sc.st,
            rest: sc.rest,
        },
    }
}

#[via_fn]
proof fn spec_text_block_dec(st: TextState, inp: Seq<u8>) {
    lemma_text_scan_len(st, inp, Seq::empty(), Seq::empty());
}

/// The value of the last pair carrying the given key, the way repeated
/// keys overwrite earlier ones.
pub open spec fn spec_pairs_lookup(pairs: Seq<(Seq<u8>, Seq<u8>)>, key: Seq<u8>) -> Option<
    Seq<u8>,
>
    decreases pairs.len(),
{
    if pairs.len() == 0 {
        None
    } else if pairs.last().0 == key {
        Some(pairs.last().1)
    } else {
        spec_pairs_lookup(pairs.drop_last(), key)
    }
}

/// The first key, in order of appearance, that is not one of the required
/// eight.
pub open spec fn spec_first_unexpected(pairs: Seq<(Seq<u8>, Seq<u8>)>) -> Option<Seq<u8>>
    decreases pairs.len(),
{
    if pairs.len() == 0 {
        None
    } else if spec_key_of(pairs[0].0) is None {
        Some(pairs[0].0)
    } else {
        spec_first_unexpected(pairs.drop_first())
    }
}

proof fn lemma_first_unexpected_skip(pairs: Seq<(Seq<u8>, Seq<u8>)>, i: int)
    requires
        0 <= i <= pairs.len(),
        forall|j: int| 0 <= j < i ==> spec_key_of(#[trigger] pairs[j].0) is Some,
    ensures
        spec_first_unexpected(pairs) == spec_first_unexpected(pairs.skip(i)),
    decreases i,
{
    if i == 0 {
        assert(pairs.skip(0) =~= pairs);
    } else {
        assert(spec_key_of(pairs[0].0) is Some);
        assert(pairs.drop_first() =~= pairs.subrange(1, pairs.len() as int));
        let t = pairs.drop_first();
        assert(forall|j: int| 0 <= j < i - 1 ==> spec_key_of(#[trigger] t[j].0) is Some);
        lemma_first_unexpected_skip(t, i - 1);
        assert(t.skip(i - 1) =~= pairs.skip(i));
    }
}

/// A flaw in a text block, carrying what the matching error must name.
pub enum TextErr {
    /// A key outside the required set; its bytes.
    Unexpected(Seq<u8>),
    /// A required key that the block does not carry.
    Missing(FieldKey),
    /// A flaw in one of the field values.
    Row(RowErr),
}

/// Whether an error names exactly the flaw found in a block.
pub open spec fn text_error_matches(e: ParsError, te: TextErr) -> bool {
    match te {
        TextErr::Unexpected(kv) => e matches ParsError::WrongFormat(
            FormatReason::UnexpectedKey(k),
        ) && k@ == kv,
        TextErr::Missing(fk) => e == ParsError::WrongFormat(FormatReason::MissingKey(fk)),
        TextErr::Row(re) => wrong_format_matches(e, re),
    }
}

/// The field values of a block, arranged in the fixed field order.
pub open spec fn spec_ordered_values(pairs: Seq<(Seq<u8>, Seq<u8>)>) -> Seq<Seq<u8>> {
    seq![
        spec_pairs_lookup(pairs, spec_key_token(FieldKey::TxId))->Some_0,
        spec_pairs_lookup(pairs, spec_key_token(FieldKey::TxType))->Some_0,
        spec_pairs_lookup(pairs, spec_key_token(FieldKey::FromUserId))->Some_0,
        spec_pairs_lookup(pairs, spec_key_token(FieldKey::ToUserId))->Some_0,
        spec_pairs_lookup(pairs, spec_key_token(FieldKey::Amount))->Some_0,
        spec_pairs_lookup(pairs, spec_key_token(FieldKey::Timestamp))->Some_0,
        spec_pairs_lookup(pairs, spec_key_token(FieldKey::Status))->Some_0,
        spec_pairs_lookup(pairs, spec_key_token(FieldKey::Description))->Some_0,
    ]
}

/// The first flaw of a block: a key outside the required set, then a
/// missing required key, then the first flaw among the field values.
pub open spec fn spec_text_check(pairs: Seq<(Seq<u8>, Seq<u8>)>) -> Option<TextErr> {
    if spec_first_unexpected(pairs) is Some {
        Some(TextErr::Unexpected(spec_first_unexpected(pairs)->Some_0))
    } else if spec_pairs_lookup(pairs, spec_key_token(FieldKey::TxId)) is None {
        Some(TextErr::Missing(FieldKey::TxId))
    } else if spec_pairs_lookup(pairs, spec_key_token(FieldKey::TxType)) is None {
        Some(TextErr::Missing(FieldKey::TxType))
    } else if spec_pairs_lookup(pairs, spec_key_token(FieldKey::FromUserId)) is None {
        Some(TextErr::Missing(FieldKey::FromUserId))
    } else if spec_pairs_lookup(pairs, spec_key_token(FieldKey::ToUserId)) is None {
        Some(TextErr::Missing(FieldKey::ToUserId))
    } else if spec_pairs_lookup(pairs, spec_key_token(FieldKey::Amount)) is None {
        Some(TextErr::Missing(FieldKey::Amount))
    } else if spec_pairs_lookup(pairs, spec_key_token(FieldKey::Timestamp)) is None {
        Some(TextErr::Missing(FieldKey::Timestamp))
    } else if spec_pairs_lookup(pairs, spec_key_token(FieldKey::Status)) is None {
        Some(TextErr::Missing(FieldKey::Status))
    } else if spec_pairs_lookup(pairs, spec_key_token(FieldKey::Description)) is None {
        Some(TextErr::Missing(FieldKey::Description))
    } else {
        match spec_row_check(spec_ordered_values(pairs)) {
            Some(e) => Some(TextErr::Row(e)),
            None => None,
        }
    }
}

/// One `key: value` line as written.
pub open spec fn spec_pair_line(kv: (Seq<u8>, Seq<u8>)) -> Seq<u8> {
    kv.0 + seq![COLON, SPACE] + kv.1 + seq![NEWLINE]
}

/// The lines of a block, in pair order.
pub open spec fn spec_pairs_bytes(pairs: Seq<(Seq<u8>, Seq<u8>)>) -> Seq<u8>
    decreases pairs.len(),
{
    if pairs.len() == 0 {
        Seq::empty()
    } else {
        spec_pairs_bytes(pairs.drop_last()) + spec_pair_line(pairs.last())
    }
}

/// The pairs a transaction is written as, one per field, in the fixed
/// field order.
pub open spec fn spec_pairs_of_tx(tx: Transaction) -> Seq<(Seq<u8>, Seq<u8>)> {
    let f = spec_fields_of_tx(tx);
    seq![
        (spec_key_token(FieldKey::TxId), f[0]),
        (spec_key_token(FieldKey::TxType), f[1]),
        (spec_key_token(FieldKey::FromUserId), f[2]),
        (spec_key_token(FieldKey::ToUserId), f[3]),
        (spec_key_token(FieldKey::Amount), f[4]),
        (spec_key_token(FieldKey::Timestamp), f[5]),
        (spec_key_token(FieldKey::Status), f[6]),
        (spec_key_token(FieldKey::Description), f[7]),
    ]
}

/// The full byte image of one transaction: its lines, then the blank line
/// that ends the block.
pub open spec fn spec_text_tx_bytes(tx: Transaction) -> Seq<u8> {
    spec_pairs_bytes(spec_pairs_of_tx(tx)) + seq![NEWLINE]
}

/// One text block: its key-value pairs in order of appearance. A repeated
/// key overwrites the earlier value, as the lookup takes the last
/// occurrence.
pub struct TextFinanceRecord {
    pub fields: Vec<(Vec<u8>, Vec<u8>)>,
}

impl TextFinanceRecord {
    /// Finds the value of the last pair carrying the given key.
    fn lookup(&self, key: &Vec<u8>) -> (r: Option<Vec<u8>>)
        ensures
            match spec_pairs_lookup(spec_pairs_view(self.fields@), key@) {
                Some(v) => r matches Some(rv) && rv@ == v,
                None => r is None,
            },
    {
        let ghost pv = spec_pairs_view(self.fields@);
        let n = self.fields.len();
        let mut j: usize = n;
        proof {
            assert(pv.subrange(0, n as int) =~= pv);
        }
        while j > 0
            invariant
                0 <= j <= n == self.fields@.len(),
                pv == spec_pairs_view(self.fields@),
                spec_pairs_lookup(pv, key@) == spec_pairs_lookup(pv.subrange(0, j as int), key@),
            decreases j,
        {
            j = j - 1;
            if crate::utils::bytes_eq(self.fields[j].0.as_slice(), key.as_slice()) {
                proof {
                    let p = pv.subrange(0, j + 1);
                    assert(p.last() == pv[j as int]);
                    assert(pv[j as int].0 == key@);
                    assert(spec_pairs_lookup(p, key@) == Some(pv[j as int].1));
                }
                return Some(self.fields[j].1.clone());
            }
            proof {
                let p = pv.subrange(0, j + 1);
                assert(p.last() == pv[j as int]);
                assert(p.drop_last() =~= pv.subrange(0, j as int));
            }
        }
        proof {
            assert(pv.subrange(0, 0) =~= Seq::<(Seq<u8>, Seq<u8>)>::empty());
        }
        None
    }

    /// Appends one `key: value` line per pair, then the blank line that
    /// ends the block.
    pub fn serialize(&self, out: &mut Vec<u8>)
        ensures
            final(out)@ == old(out)@ + spec_pairs_bytes(spec_pairs_view(self.fields@)) + seq![
                NEWLINE,
            ],
    {
        let ghost pv = spec_pairs_view(self.fields@);
        let n = self.fields.len();
        let mut idx: usize = 0;
        while idx < n
            invariant
                0 <= idx <= n == self.fields@.len(),
                pv == spec_pairs_view(self.fields@),
                out@ =~= old(out)@ + spec_pairs_bytes(pv.subrange(0, idx as int)),
            decreases n - idx,
        {
            out.extend_from_slice(self.fields[idx].0.as_slice());
            out.push(COLON);
            out.push(SPACE);
            out.extend_from_slice(self.fields[idx].1.as_slice());
            out.push(NEWLINE);
            proof {
                let p = pv.subrange(0, idx + 1);
                assert(p.drop_last() =~= pv.subrange(0, idx as int));
                assert(p.last() == pv[idx as int]);
                assert(pv[idx as int].0 == self.fields@[idx as int].0@);
                assert(pv[idx as int].1 == self.fields@[idx as int].1@);
                assert(out@ =~= old(out)@ + spec_pairs_bytes(p));
            }
            idx = idx + 1;
        }
        out.push(NEWLINE);
        proof {
            assert(pv.subrange(0, n as int) =~= pv);
            assert(out@ =~= old(out)@ + spec_pairs_bytes(pv) + seq![NEWLINE]);
        }
    }

    /// Interprets a completed block: every key must be one of the required
    /// eight and every required key present, then the values are read under
    /// the fixed field order.
    pub fn to_fin_data(&self) -> (r: Result<Transaction, ParsError>)
        ensures
            match spec_text_check(spec_pairs_view(self.fields@)) {
                Some(te) => r matches Err(e) && text_error_matches(e, te),
                None => r matches Ok(tx) && tx_matches_fields(
                    tx,
                    spec_ordered_values(spec_pairs_view(self.fields@)),
                ) && tx.wf(),
            },
    {
        let ghost pv = spec_pairs_view(self.fields@);
        let n = self.fields.len();
        let mut i: usize = 0;
        while i < n
            invariant
                0 <= i <= n == self.fields@.len(),
                pv == spec_pairs_view(self.fields@),
                forall|j: int| 0 <= j < i ==> spec_key_of(#[trigger] pv[j].0) is Some,
            decreases n - i,
        {
            match key_of_token(&self.fields[i].0) {
                Some(_) => {},
                None => {
                    proof {
                        lemma_first_unexpected_skip(pv, i as int);
                        let t = pv.skip(i as int);
                        assert(t[0] == pv[i as int]);
                        assert(spec_first_unexpected(t) == Some(pv[i as int].0));
                    }
                    return Err(
                        ParsError::WrongFormat(
                            FormatReason::UnexpectedKey(self.fields[i].0.clone()),
                        ),
                    );
                },
            }
            i = i + 1;
        }
        proof {
            lemma_first_unexpected_skip(pv, n as int);
            assert(pv.skip(n as int) =~= Seq::<(Seq<u8>, Seq<u8>)>::empty());
            assert(spec_first_unexpected(pv) is None);
        }
        let v0 = match self.lookup(&key_token(FieldKey::TxId)) {
            Some(v) => v,
            None => {
                return Err(ParsError::WrongFormat(FormatReason::MissingKey(FieldKey::TxId)));
            },
        };
        let v1 = match self.lookup(&key_token(FieldKey::TxType)) {
            Some(v) => v,
            None => {
                return Err(ParsError::WrongFormat(FormatReason::MissingKey(FieldKey::TxType)));
            },
        };
        let v2 = match self.lookup(&key_token(FieldKey::FromUserId)) {
            Some(v) => v,
            None => {
                return Err(
                    ParsError::WrongFormat(FormatReason::MissingKey(FieldKey::FromUserId)),
                );
            },
        };
        let v3 = match self.lookup(&key_token(FieldKey::ToUserId)) {
            Some(v) => v,
            None => {
                return Err(ParsError::WrongFormat(FormatReason::MissingKey(FieldKey::ToUserId)));
            },
        };
        let v4 = match self.lookup(&key_token(FieldKey::Amount)) {
            Some(v) => v,
            None => {
                return Err(ParsError::WrongFormat(FormatReason::MissingKey(FieldKey::Amount)));
            },
        };
        let v5 = match self.lookup(&key_token(FieldKey::Timestamp)) {
            Some(v) => v,
            None => {
                return Err(
                    ParsError::WrongFormat(FormatReason::MissingKey(FieldKey::Timestamp)),
                );
            },
        };
        let v6 = match self.lookup(&key_token(FieldKey::Status)) {
            Some(v) => v,
            None => {
                return Err(ParsError::WrongFormat(FormatReason::MissingKey(FieldKey::Status)));
            },
        };
        let v7 = match self.lookup(&key_token(FieldKey::Description)) {
            Some(v) => v,
            None => {
                return Err(
                    ParsError::WrongFormat(FormatReason::MissingKey(FieldKey::Description)),
                );
            },
        };
        let mut ordered: Vec<Vec<u8>> = Vec::new();
        ordered.push(v0);
        ordered.push(v1);
        ordered.push(v2);
        ordered.push(v3);
        ordered.push(v4);
        ordered.push(v5);
        ordered.push(v6);
        ordered.push(v7);
        proof {
            let f = ordered.deep_view();
            assert(forall|k: int| 0 <= k < 8 ==> f[k] == #[trigger] ordered@[k]@);
            assert(f =~~= spec_ordered_values(pv));
        }
        fields_to_transaction(&ordered)
    }

    /// Builds the block a transaction is written as: one pair per field,
    /// in the fixed field order, with the description wrapped in quotes.
    pub fn from_fin_data(fin_data: &Transaction) -> (r: TextFinanceRecord)
        ensures
            spec_pairs_view(r.fields@) == spec_pairs_of_tx(*fin_data),
    {
        let mut fields: Vec<(Vec<u8>, Vec<u8>)> = Vec::new();
        let mut tx_id_tok: Vec<u8> = Vec::new();
        push_u64_dec(&mut tx_id_tok, fin_data.tx_id);
        fields.push((key_token(FieldKey::TxId), tx_id_tok));
        fields.push((key_token(FieldKey::TxType), tx_type_token(fin_data.tx_type)));
        let mut from_tok: Vec<u8> = Vec::new();
        push_u64_dec(&mut from_tok, fin_data.from_user_id);
        fields.push((key_token(FieldKey::FromUserId), from_tok));
        let mut to_tok: Vec<u8> = Vec::new();
        push_u64_dec(&mut to_tok, fin_data.to_user_id);
        fields.push((key_token(FieldKey::ToUserId), to_tok));
        let mut amount_tok: Vec<u8> = Vec::new();
        push_i64_dec(&mut amount_tok, fin_data.amount);
        fields.push((key_token(FieldKey::Amount), amount_tok));
        let mut ts_tok: Vec<u8> = Vec::new();
        push_u64_dec(&mut ts_tok, fin_data.timestamp.millis as u64);
        fields.push((key_token(FieldKey::Timestamp), ts_tok));
        fields.push((key_token(FieldKey::Status), status_token(fin_data.status)));
        let mut desc_tok: Vec<u8> = Vec::new();
        desc_tok.push(QUOTE);
        desc_tok.extend_from_slice(fin_data.description.as_slice());
        desc_tok.push(QUOTE);
        proof {
            assert(desc_tok@ =~= seq![QUOTE] + fin_data.description@ + seq![QUOTE]);
        }
        fields.push((key_token(FieldKey::Description), desc_tok));
        proof {
            let p = spec_pairs_view(fields@);
            let q = spec_pairs_of_tx(*fin_data);
            assert(fields@.len() == 8);
            assert(p[0].0 =~= q[0].0 && p[0].1 =~= q[0].1);
            assert(p[1].0 =~= q[1].0 && p[1].1 =~= q[1].1);
            assert(p[2].0 =~= q[2].0 && p[2].1 =~= q[2].1);
            assert(p[3].0 =~= q[3].0 && p[3].1 =~= q[3].1);
            assert(p[4].0 =~= q[4].0 && p[4].1 =~= q[4].1);
            assert(p[5].0 =~= q[5].0 && p[5].1 =~= q[5].1);
            assert(p[6].0 =~= q[6].0 && p[6].1 =~= q[6].1);
            assert(p[7].0 =~= q[7].0 && p[7].1 =~= q[7].1);
            assert(p =~= q);
        }
        TextFinanceRecord { fields }
    }
}

// ---------------------------------------------------------------------------
// Reader and writer
// ---------------------------------------------------------------------------

/// A reader that pulls transactions one block at a time from an in-memory
/// text stream.
pub struct TextReader {
    pub parser: Parser,
}

/// The exact relation between a text reader before and after one read
/// call, and the call's result.
pub open spec fn text_read_step(
    pre: TextReader,
    post: TextReader,
    r: Result<Option<Transaction>, ParsError>,
) -> bool {
    let blk = spec_text_block(pre.parser.state, pre.parser.data@.skip(pre.parser.pos as int));
    &&& post.parser.data@ == pre.parser.data@
    &&& post.parser.state == blk.st
    &&& post.parser.data@.skip(post.parser.pos as int) == blk.rest
    &&& if blk.pairs.len() == 0 {
        r == Ok::<Option<Transaction>, ParsError>(None)
    } else {
        match spec_text_check(blk.pairs) {
            Some(te) => r matches Err(e) && text_error_matches(e, te),
            None => r matches Ok(Some(tx)) && tx_matches_fields(
                tx,
                spec_ordered_values(blk.pairs),
            ) && tx.wf(),
        }
    }
}

impl TextReader {
    /// The position never runs past the end of the stream.
    pub open spec fn wf(self) -> bool {
        self.parser.wf()
    }

    /// Wraps an in-memory byte stream.
    pub fn new(stream: Vec<u8>) -> (r: Result<TextReader, ParsError>)
        ensures
            r matches Ok(rd) && rd.parser.data@ == stream@ && rd.parser.pos == 0
                && rd.parser.state == TextState::WaitStartRecord && rd.wf(),
    {
        Ok(TextReader { parser: Parser::new(stream) })
    }

    /// Reads the next block and interprets it; an empty remainder reports
    /// no further records.
    pub fn read_fin_data(&mut self) -> (r: Result<Option<Transaction>, ParsError>)
        requires
            old(self).wf(),
        ensures
            final(self).wf(),
            text_read_step(*old(self), *final(self), r),
    {
        let ghost blk0 = spec_text_block(
            old(self).parser.state,
            old(self).parser.data@.skip(old(self).parser.pos as int),
        );
        let mut fields: Vec<(Vec<u8>, Vec<u8>)> = Vec::new();
        loop
            invariant
                self.wf(),
                self.parser.data@ == old(self).parser.data@,
                ({
                    let blk = spec_text_block(
                        self.parser.state,
                        self.parser.data@.skip(self.parser.pos as int),
                    );
                    &&& blk0.pairs == spec_pairs_view(fields@) + blk.pairs
                    &&& blk0.st == blk.st
                    &&& blk0.rest == blk.rest
                }),
            decreases self.parser.data@.len() - self.parser.pos,
        {
            let ghost st_pre = self.parser.state;
            let ghost inp_pre = self.parser.data@.skip(self.parser.pos as int);
            proof {
                lemma_text_scan_len(st_pre, inp_pre, Seq::empty(), Seq::empty());
            }
            let tok = self.parser.get_next_token();
            match tok {
                TextToken::KeyValue(kv) => {
                    let ghost kvv = (kv.0@, kv.1@);
                    let ghost fields_pre = spec_pairs_view(fields@);
                    fields.push(kv);
                    proof {
                        let sc = text_scan(st_pre, inp_pre, Seq::empty(), Seq::empty());
                        let blk_pre = spec_text_block(st_pre, inp_pre);
                        let blk_new = spec_text_block(sc.st, sc.rest);
                        assert(blk_pre.pairs == seq![kvv] + blk_new.pairs);
                        assert(spec_pairs_view(fields@) =~= fields_pre.push(kvv));
                        assert(spec_pairs_view(fields@) + blk_new.pairs =~= fields_pre + (
                        seq![kvv] + blk_new.pairs));
                    }
                },
                TextToken::SplitRecords => {
                    proof {
                        let blk_pre = spec_text_block(st_pre, inp_pre);
                        assert(blk_pre.pairs =~= Seq::<(Seq<u8>, Seq<u8>)>::empty());
                        assert(spec_pairs_view(fields@) + blk_pre.pairs =~= spec_pairs_view(
                            fields@,
                        ));
                    }
                    break;
                },
                TextToken::EndOfStream(opt) => {
                    match opt {
                        Some(kv) => {
                            let ghost kvv = (kv.0@, kv.1@);
                            let ghost fields_pre = spec_pairs_view(fields@);
                            fields.push(kv);
                            proof {
                                let blk_pre = spec_text_block(st_pre, inp_pre);
                                assert(blk_pre.pairs == seq![kvv]);
                                assert(spec_pairs_view(fields@) =~= fields_pre + seq![kvv]);
                            }
                        },
                        None => {
                            proof {
                                let blk_pre = spec_text_block(st_pre, inp_pre);
                                assert(blk_pre.pairs =~= Seq::<(Seq<u8>, Seq<u8>)>::empty());
                                assert(spec_pairs_view(fields@) + blk_pre.pairs
                                    =~= spec_pairs_view(fields@));
                            }
                        },
                    }
                    break;
                },
            }
        }
        if fields.len() == 0 {
            proof {
                assert(spec_pairs_view(fields@).len() == 0);
                assert(blk0.pairs =~= Seq::<(Seq<u8>, Seq<u8>)>::empty());
            }
            return Ok(None);
        }
        let record = TextFinanceRecord { fields };
        proof {
            assert(spec_pairs_view(record.fields@) + Seq::<(Seq<u8>, Seq<u8>)>::empty()
                =~= spec_pairs_view(record.fields@));
        }
        match record.to_fin_data() {
            Ok(tx) => Ok(Some(tx)),
            Err(e) => Err(e),
        }
    }
}

/// A writer that appends transactions one block at a time to an in-memory
/// text stream.
pub struct TextWriter {
    pub stream: Vec<u8>,
}

impl TextWriter {
    /// Wraps an in-memory output buffer.
    pub fn new(stream: Vec<u8>) -> (r: Result<TextWriter, ParsError>)
        ensures
            r matches Ok(w) && w.stream@ == stream@,
    {
        Ok(TextWriter { stream })
    }

    /// Appends one transaction as a block of `key: value` lines followed by
    /// a blank line.
    pub fn write_fin_data(&mut self, data: &Transaction) -> (r: Result<(), ParsError>)
        ensures
            r == Ok::<(), ParsError>(()),
            final(self).stream@ == old(self).stream@ + spec_text_tx_bytes(*data),
    {
        let record = TextFinanceRecord::from_fin_data(data);
        record.serialize(&mut self.stream);
        proof {
            assert(old(self).stream@ + spec_pairs_bytes(spec_pairs_of_tx(*data)) + seq![NEWLINE]
                =~= old(self).stream@ + spec_text_tx_bytes(*data));
        }
        Ok(())
    }
}


/// Reading a block consumes a prefix of the input.
pub proof fn lemma_text_block_len(st: TextState, inp: Seq<u8>)
    ensures
        spec_text_block(st, inp).rest.len() <= inp.len(),
    decreases inp.len(),
{
    let sc = text_scan(st, inp, Seq::empty(), Seq::empty());
    lemma_text_scan_len(st, inp, Seq::empty(), Seq::empty());
    match sc.tok {
        TextTokenV::KeyValue(_) => {
            lemma_text_block_len(sc.st, sc.rest);
        },
        _ => {},
    }
}

/// A block with at least one pair consumed at least one byte.
pub proof fn lemma_text_block_progress(st: TextState, inp: Seq<u8>)
    ensures
        spec_text_block(st, inp).pairs.len() > 0 ==> spec_text_block(st, inp).rest.len()
            < inp.len(),
{
    let sc = text_scan(st, inp, Seq::empty(), Seq::empty());
    lemma_text_scan_len(st, inp, Seq::empty(), Seq::empty());
    match sc.tok {
        TextTokenV::KeyValue(_) => {
            lemma_text_block_len(sc.st, sc.rest);
        },
        TextTokenV::SplitRecords => {},
        TextTokenV::EndOfStream(o) => {
            if o is Some {
                assert(inp.len() > 0) by {
                    if inp.len() == 0 {
                        assert(spec_trim(Seq::<u8>::empty()).len() == 0);
                    }
                }
            }
        },
    }
}

/// A read call that produced a record consumed at least one byte of the
/// stream.
pub proof fn lemma_text_read_progress(pre: TextReader, post: TextReader, tx: Transaction)
    requires
        text_read_step(pre, post, Ok(Some(tx))),
    ensures
        post.parser.data@ == pre.parser.data@,
        post.parser.data@.skip(post.parser.pos as int).len() < pre.parser.data@.skip(
            pre.parser.pos as int,
        ).len(),
{
    let inp = pre.parser.data@.skip(pre.parser.pos as int);
    let blk = spec_text_block(pre.parser.state, inp);
    assert(blk.pairs.len() > 0);
    lemma_text_block_progress(pre.parser.state, inp);
}


// ---------------------------------------------------------------------------
// Round trip
// ---------------------------------------------------------------------------

/// A key the tokenizer hands back unchanged: at least one byte, none of
/// them whitespace, a colon, or a comment mark.
pub open spec fn key_token_ok(k: Seq<u8>) -> bool {
    &&& k.len() > 0
    &&& forall|i: int|
        0 <= i < k.len() ==> !crate::utils::is_ws(#[trigger] k[i]) && k[i] != COLON && k[i]
            != HASH
}

/// An unquoted value the tokenizer hands back unchanged: at least one
/// byte, none of them whitespace, and not opening with a quote.
pub open spec fn plain_value_ok(c: Seq<u8>) -> bool {
    &&& c.len() > 0
    &&& c[0] != QUOTE
    &&& forall|i: int| 0 <= i < c.len() ==> !crate::utils::is_ws(#[trigger] c[i])
}

/// A quoted value the tokenizer hands back unchanged: a quote pair around
/// text free of quotes, backslashes, and newlines.
pub open spec fn quoted_value_ok(c: Seq<u8>) -> bool {
    &&& c.len() >= 2
    &&& c[0] == QUOTE
    &&& c[c.len() - 1] == QUOTE
    &&& forall|i: int|
        1 <= i < c.len() - 1 ==> #[trigger] c[i] != QUOTE && c[i] != BACKSLASH && c[i] != NEWLINE
}

/// A value that comes back from the tokenizer exactly as printed.
pub open spec fn value_token_ok(c: Seq<u8>) -> bool {
    plain_value_ok(c) || quoted_value_ok(c)
}

proof fn lemma_trim_id(c: Seq<u8>)
    requires
        c.len() > 0,
        !crate::utils::is_ws(c[0]),
        !crate::utils::is_ws(c[c.len() - 1]),
    ensures
        spec_trim(c) == c,
{
}

proof fn lemma_text_scan_key(c: Seq<u8>, kbuf: Seq<u8>, vbuf: Seq<u8>, rest: Seq<u8>)
    requires
        forall|i: int| 0 <= i < c.len() ==> #[trigger] c[i] != COLON,
        rest.len() > 0,
        rest[0] == COLON,
    ensures
        text_scan(TextState::WaitEndKey, c + rest, kbuf, vbuf) == text_scan(
            TextState::WaitStartValue,
            rest.drop_first(),
            kbuf + c,
            vbuf,
        ),
    decreases c.len(),
{
    if c.len() == 0 {
        assert(c + rest =~= rest);
        assert(kbuf + c =~= kbuf);
    } else {
        let inp = c + rest;
        assert(inp[0] == c[0]);
        assert(inp.drop_first() =~= c.drop_first() + rest);
        lemma_text_scan_key(c.drop_first(), kbuf.push(c[0]), vbuf, rest);
        assert(kbuf.push(c[0]) + c.drop_first() =~= kbuf + c);
    }
}

proof fn lemma_text_scan_regular(c: Seq<u8>, kbuf: Seq<u8>, vbuf: Seq<u8>, rest: Seq<u8>)
    requires
        forall|i: int| 0 <= i < c.len() ==> #[trigger] c[i] != NEWLINE,
        rest.len() > 0,
        rest[0] == NEWLINE,
    ensures
        text_scan(TextState::WaitEndRegular, c + rest, kbuf, vbuf) == (TextScan {
            tok: TextTokenV::KeyValue((spec_trim(kbuf), spec_trim(vbuf + c))),
            st: TextState::WaitStartKey,
            rest: rest.drop_first(),
        }),
    decreases c.len(),
{
    if c.len() == 0 {
        assert(c + rest =~= rest);
        assert(vbuf + c =~= vbuf);
    } else {
        let inp = c + rest;
        assert(inp[0] == c[0]);
        assert(inp.drop_first() =~= c.drop_first() + rest);
        lemma_text_scan_regular(c.drop_first(), kbuf, vbuf.push(c[0]), rest);
        assert(vbuf.push(c[0]) + c.drop_first() =~= vbuf + c);
    }
}

proof fn lemma_text_scan_string(m: Seq<u8>, kbuf: Seq<u8>, vbuf: Seq<u8>, rest: Seq<u8>)
    requires
        forall|i: int| 0 <= i < m.len() ==> #[trigger] m[i] != QUOTE && m[i] != BACKSLASH,
        rest.len() > 0,
        rest[0] == QUOTE,
    ensures
        text_scan(TextState::WaitEndString, m + rest, kbuf, vbuf) == text_scan(
            TextState::WaitEndRegular,
            rest.drop_first(),
            kbuf,
            vbuf + m + seq![QUOTE],
        ),
    decreases m.len(),
{
    if m.len() == 0 {
        assert(m + rest =~= rest);
        assert(vbuf.push(QUOTE) =~= vbuf + m + seq![QUOTE]);
    } else {
        let inp = m + rest;
        assert(inp[0] == m[0]);
        assert(inp.drop_first() =~= m.drop_first() + rest);
        lemma_text_scan_string(m.drop_first(), kbuf, vbuf.push(m[0]), rest);
        assert(vbuf.push(m[0]) + m.drop_first() =~= vbuf + m);
    }
}

/// Scanning one printed `key: value` line from the head of a stream hands
/// the pair back unchanged, consuming the line's newline.
proof fn lemma_text_scan_line(st: TextState, k: Seq<u8>, c: Seq<u8>, tail: Seq<u8>)
    requires
        st == TextState::WaitStartRecord || st == TextState::WaitStartKey,
        key_token_ok(k),
        value_token_ok(c),
    ensures
        text_scan(st, spec_pair_line((k, c)) + tail, Seq::empty(), Seq::empty()) == (TextScan {
            tok: TextTokenV::KeyValue((k, c)),
            st: TextState::WaitStartKey,
            rest: tail,
        }),
{
    let line = spec_pair_line((k, c));
    let inp = line + tail;
    assert(inp[0] == k[0]);
    assert(!crate::utils::is_ws(k[0]) && k[0] != HASH);
    assert forall|i: int| 0 <= i < k.drop_first().len() implies (#[trigger] k.drop_first()[i])
        != COLON by {
        assert(k.drop_first()[i] == k[i + 1]);
    }
    assert forall|i: int| 0 <= i < c.drop_first().len() implies (#[trigger] c.drop_first()[i])
        != NEWLINE by {
        assert(c.drop_first()[i] == c[i + 1]);
        if plain_value_ok(c) {
            assert(!crate::utils::is_ws(c[i + 1]));
        } else {
            if i + 1 < c.len() - 1 {
            } else {
                assert(c[i + 1] == QUOTE);
            }
        }
    }
    let after_k0 = k.drop_first() + (seq![COLON, SPACE] + c + seq![NEWLINE] + tail);
    assert(inp.drop_first() =~= after_k0);
    assert((seq![COLON, SPACE] + c + seq![NEWLINE] + tail)[0] == COLON);
    lemma_text_scan_key(
        k.drop_first(),
        Seq::empty().push(k[0]),
        Seq::empty(),
        seq![COLON, SPACE] + c + seq![NEWLINE] + tail,
    );
    assert(Seq::empty().push(k[0]) + k.drop_first() =~= k);
    let after_colon = (seq![COLON, SPACE] + c + seq![NEWLINE] + tail).drop_first();
    assert(after_colon =~= seq![SPACE] + (c + seq![NEWLINE] + tail));
    assert(after_colon[0] == SPACE);
    assert(after_colon.drop_first() =~= c + (seq![NEWLINE] + tail));
    let vrest = seq![NEWLINE] + tail;
    assert(vrest[0] == NEWLINE);
    assert(vrest.drop_first() =~= tail);
    assert(text_scan(st, inp, Seq::empty(), Seq::empty()) == text_scan(
        TextState::WaitEndKey,
        inp.drop_first(),
        Seq::empty().push(k[0]),
        Seq::empty(),
    ));
    assert(text_scan(
        TextState::WaitEndKey,
        inp.drop_first(),
        Seq::empty().push(k[0]),
        Seq::empty(),
    ) == text_scan(TextState::WaitStartValue, after_colon, Seq::empty().push(k[0]) + k.drop_first(), Seq::empty()));
    assert(Seq::empty().push(k[0]) + k.drop_first() =~= k);
    assert(text_scan(TextState::WaitStartValue, after_colon, k, Seq::empty()) == text_scan(
        TextState::WaitStartValue,
        after_colon.drop_first(),
        k,
        Seq::empty(),
    ));
    if plain_value_ok(c) {
        assert((c + vrest)[0] == c[0]);
        assert(c[0] != SPACE && c[0] != QUOTE);
        assert((c + vrest).drop_first() =~= c.drop_first() + vrest);
        lemma_text_scan_regular(c.drop_first(), k, Seq::empty().push(c[0]), vrest);
        assert(Seq::empty().push(c[0]) + c.drop_first() =~= c);
        lemma_trim_id(k);
        lemma_trim_id(c);
        assert(text_scan(TextState::WaitStartValue, c + vrest, k, Seq::empty()) == (TextScan {
            tok: TextTokenV::KeyValue((k, c)),
            st: TextState::WaitStartKey,
            rest: tail,
        }));
    } else {
        let m = c.subrange(1, c.len() - 1);
        assert forall|i: int| 0 <= i < m.len() implies (#[trigger] m[i]) != QUOTE && m[i]
            != BACKSLASH by {
            assert(m[i] == c[i + 1]);
        }
        assert((c + vrest)[0] == QUOTE);
        assert((c + vrest).drop_first() =~= m + (seq![QUOTE] + vrest));
        assert((seq![QUOTE] + vrest)[0] == QUOTE);
        lemma_text_scan_string(m, k, Seq::empty().push(QUOTE), seq![QUOTE] + vrest);
        assert((seq![QUOTE] + vrest).drop_first() =~= vrest);
        assert(Seq::empty().push(QUOTE) + m + seq![QUOTE] =~= c);
        lemma_text_scan_regular(Seq::empty(), k, c, vrest);
        assert(Seq::<u8>::empty() + vrest =~= vrest);
        assert(c + Seq::<u8>::empty() =~= c);
        lemma_trim_id(k);
        lemma_trim_id(c);
    }
}

/// Splitting the printed lines at the first pair.
proof fn lemma_pairs_bytes_front(p: Seq<(Seq<u8>, Seq<u8>)>)
    requires
        p.len() >= 1,
    ensures
        spec_pairs_bytes(p) == spec_pair_line(p[0]) + spec_pairs_bytes(p.drop_first()),
    decreases p.len(),
{
    if p.len() == 1 {
        assert(p.drop_last() =~= Seq::<(Seq<u8>, Seq<u8>)>::empty());
        assert(p.drop_first() =~= Seq::<(Seq<u8>, Seq<u8>)>::empty());
        assert(p.last() == p[0]);
        assert(Seq::<u8>::empty() + spec_pair_line(p[0]) =~= spec_pair_line(p[0]) + Seq::<
            u8,
        >::empty());
    } else {
        lemma_pairs_bytes_front(p.drop_last());
        assert(p.drop_last()[0] == p[0]);
        assert(p.drop_last().drop_first() =~= p.drop_first().drop_last());
        assert(p.drop_first().last() == p.last());
        assert((spec_pair_line(p[0]) + spec_pairs_bytes(p.drop_first().drop_last()))
            + spec_pair_line(p.last()) =~= spec_pair_line(p[0]) + (spec_pairs_bytes(
            p.drop_first().drop_last(),
        ) + spec_pair_line(p.drop_first().last())));
    }
}

/// Tokenizing a printed block of well-behaved pairs recovers exactly those
/// pairs and leaves exactly the trailing input.
pub proof fn lemma_text_block_of_pairs(st: TextState, p: Seq<(Seq<u8>, Seq<u8>)>, tail: Seq<u8>)
    requires
        st == TextState::WaitStartKey || (st == TextState::WaitStartRecord && p.len() > 0),
        forall|i: int|
            0 <= i < p.len() ==> key_token_ok(#[trigger] p[i].0) && value_token_ok(p[i].1),
    ensures
        spec_text_block(st, spec_pairs_bytes(p) + seq![NEWLINE] + tail) == (TextBlock {
            pairs: p,
            st: TextState::WaitStartRecord,
            rest: tail,
        }),
    decreases p.len(),
{
    if p.len() == 0 {
        let inp = spec_pairs_bytes(p) + seq![NEWLINE] + tail;
        assert(inp =~= seq![NEWLINE] + tail);
        assert(inp[0] == NEWLINE);
        assert(inp.drop_first() =~= tail);
        assert(spec_text_block(st, inp).pairs =~= p);
    } else {
        lemma_pairs_bytes_front(p);
        let restbytes = spec_pairs_bytes(p.drop_first()) + seq![NEWLINE] + tail;
        assert(spec_pairs_bytes(p) + seq![NEWLINE] + tail =~= spec_pair_line(p[0]) + restbytes);
        lemma_text_scan_line(st, p[0].0, p[0].1, restbytes);
        assert((p[0].0, p[0].1) == p[0]);
        lemma_text_block_of_pairs(TextState::WaitStartKey, p.drop_first(), tail);
        assert(spec_text_block(st, spec_pairs_bytes(p) + seq![NEWLINE] + tail).pairs
            =~= seq![p[0]] + p.drop_first());
        assert(seq![p[0]] + p.drop_first() =~= p);
    }
}

/// No key of the block strays outside the required set.
proof fn lemma_no_unexpected(p: Seq<(Seq<u8>, Seq<u8>)>)
    requires
        forall|i: int| 0 <= i < p.len() ==> spec_key_of(#[trigger] p[i].0) is Some,
    ensures
        spec_first_unexpected(p) is None,
    decreases p.len(),
{
    if p.len() > 0 {
        assert(spec_key_of(p[0].0) is Some);
        let t = p.drop_first();
        assert(forall|i: int| 0 <= i < t.len() ==> spec_key_of(#[trigger] t[i].0) is Some);
        lemma_no_unexpected(t);
    }
}

/// In a block whose keys are pairwise distinct, looking a key up finds its
/// own pair.
proof fn lemma_lookup_distinct(p: Seq<(Seq<u8>, Seq<u8>)>, i: int)
    requires
        0 <= i < p.len(),
        forall|a: int, b: int| 0 <= a < b < p.len() ==> (#[trigger] p[a].0) != (#[trigger] p[b].0),
    ensures
        spec_pairs_lookup(p, p[i].0) == Some(p[i].1),
    decreases p.len(),
{
    if i == p.len() - 1 {
        assert(p.last() == p[i]);
    } else {
        assert(p.last().0 != p[i].0);
        let t = p.drop_last();
        assert(t[i] == p[i]);
        lemma_lookup_distinct(t, i);
    }
}

/// Law: a transaction whose description keeps clear of the escape
/// machinery (no quotes, backslashes, or newlines in its text) is printed
/// as a block that tokenizes back to exactly its eight key-value pairs, and
/// that block passes every check and denotes the original transaction,
/// with any trailing input untouched.
#[verifier::rlimit(100)]
pub proof fn lemma_text_round_trip(tx: Transaction, tail: Seq<u8>)
    requires
        tx.wf(),
        forall|i: int|
            0 <= i < tx.description@.len() ==> #[trigger] tx.description@[i] != QUOTE
                && tx.description@[i] != BACKSLASH && tx.description@[i] != NEWLINE,
    ensures
        spec_text_block(TextState::WaitStartRecord, spec_text_tx_bytes(tx) + tail) == (TextBlock {
            pairs: spec_pairs_of_tx(tx),
            st: TextState::WaitStartRecord,
            rest: tail,
        }),
        spec_text_check(spec_pairs_of_tx(tx)) is None,
        spec_ordered_values(spec_pairs_of_tx(tx)) == crate::fields::spec_fields_of_tx(tx),
        tx_matches_fields(tx, spec_ordered_values(spec_pairs_of_tx(tx))),
{
    let p = spec_pairs_of_tx(tx);
    let f = spec_fields_of_tx(tx);
    crate::numbers::lemma_dec_digits_all_digits(tx.tx_id as nat);
    crate::numbers::lemma_dec_digits_all_digits(tx.from_user_id as nat);
    crate::numbers::lemma_dec_digits_all_digits(tx.to_user_id as nat);
    crate::numbers::lemma_dec_digits_all_digits((tx.timestamp.millis as u64) as nat);
    assert(plain_value_ok(f[0]) && plain_value_ok(f[2]) && plain_value_ok(f[3])
        && plain_value_ok(f[5])) by {
        assert(forall|i: int|
            0 <= i < f[0].len() ==> crate::numbers::is_digit(#[trigger] f[0][i]));
        assert(forall|i: int|
            0 <= i < f[2].len() ==> crate::numbers::is_digit(#[trigger] f[2][i]));
        assert(forall|i: int|
            0 <= i < f[3].len() ==> crate::numbers::is_digit(#[trigger] f[3][i]));
        assert(forall|i: int|
            0 <= i < f[5].len() ==> crate::numbers::is_digit(#[trigger] f[5][i]));
    }
    assert(plain_value_ok(f[4])) by {
        if tx.amount >= 0 {
            crate::numbers::lemma_dec_digits_all_digits(tx.amount as nat);
        } else {
            let m = (-(tx.amount as int)) as nat;
            crate::numbers::lemma_dec_digits_all_digits(m);
            assert(f[4][0] == 0x2d);
            assert(forall|i: int|
                1 <= i < f[4].len() ==> crate::numbers::is_digit(
                    #[trigger] spec_dec_digits(m)[i - 1],
                ) && f[4][i] == spec_dec_digits(m)[i - 1]);
        }
    }
    assert(plain_value_ok(f[1]) && plain_value_ok(f[6]));
    assert(quoted_value_ok(f[7])) by {
        assert(f[7].len() == tx.description@.len() + 2);
        assert(f[7][0] == QUOTE);
        assert(f[7][f[7].len() - 1] == QUOTE);
        assert(forall|i: int|
            1 <= i < f[7].len() - 1 ==> #[trigger] f[7][i] == tx.description@[i - 1]);
    }
    assert(forall|i: int|
        0 <= i < p.len() ==> key_token_ok(#[trigger] p[i].0) && value_token_ok(p[i].1)) by {
        assert(key_token_ok(spec_key_token(FieldKey::TxId)));
        assert(key_token_ok(spec_key_token(FieldKey::TxType)));
        assert(key_token_ok(spec_key_token(FieldKey::FromUserId)));
        assert(key_token_ok(spec_key_token(FieldKey::ToUserId)));
        assert(key_token_ok(spec_key_token(FieldKey::Amount)));
        assert(key_token_ok(spec_key_token(FieldKey::Timestamp)));
        assert(key_token_ok(spec_key_token(FieldKey::Status)));
        assert(key_token_ok(spec_key_token(FieldKey::Description)));
    }
    lemma_text_block_of_pairs(TextState::WaitStartRecord, p, tail);
    assert(spec_pairs_bytes(p) + seq![NEWLINE] + tail =~= spec_text_tx_bytes(tx) + tail);
    // every key is required, none missing, and each lookup finds its own
    // value
    assert(forall|i: int| 0 <= i < p.len() ==> spec_key_of(#[trigger] p[i].0) is Some);
    lemma_no_unexpected(p);
    assert(forall|a: int, b: int|
        0 <= a < b < p.len() ==> (#[trigger] p[a].0) != (#[trigger] p[b].0)) by {
        assert(spec_key_token(FieldKey::TxId).len() == 5);
        assert(spec_key_token(FieldKey::TxType).len() == 7);
        assert(spec_key_token(FieldKey::FromUserId).len() == 12);
        assert(spec_key_token(FieldKey::ToUserId).len() == 10);
        assert(spec_key_token(FieldKey::Amount).len() == 6);
        assert(spec_key_token(FieldKey::Timestamp).len() == 9);
        assert(spec_key_token(FieldKey::Status).len() == 6);
        assert(spec_key_token(FieldKey::Description).len() == 11);
        assert(spec_key_token(FieldKey::Amount)[0] == 'A' as u8);
        assert(spec_key_token(FieldKey::Status)[0] == 'S' as u8);
    }
    lemma_lookup_distinct(p, 0);
    lemma_lookup_distinct(p, 1);
    lemma_lookup_distinct(p, 2);
    lemma_lookup_distinct(p, 3);
    lemma_lookup_distinct(p, 4);
    lemma_lookup_distinct(p, 5);
    lemma_lookup_distinct(p, 6);
    lemma_lookup_distinct(p, 7);
    assert(spec_ordered_values(p) =~= f);
    crate::fields::lemma_fields_of_tx_ok(tx);
}


/// Law: a read call on a text stream that begins with the printed block of
/// a representable transaction with a well-behaved description must return
/// that very record, leaving exactly the trailing input.
pub proof fn lemma_text_read_round_trip(
    pre: TextReader,
    post: TextReader,
    r: Result<Option<Transaction>, ParsError>,
    tx: Transaction,
    tail: Seq<u8>,
)
    requires
        tx.wf(),
        forall|i: int|
            0 <= i < tx.description@.len() ==> #[trigger] tx.description@[i] != QUOTE
                && tx.description@[i] != BACKSLASH && tx.description@[i] != NEWLINE,
        pre.parser.state == TextState::WaitStartRecord,
        pre.parser.data@.skip(pre.parser.pos as int) == spec_text_tx_bytes(tx) + tail,
        text_read_step(pre, post, r),
    ensures
        r matches Ok(rr) && rr matches Some(tx2) && crate::transaction::tx_equal(tx2, tx),
        post.parser.data@.skip(post.parser.pos as int) == tail,
        post.parser.state == TextState::WaitStartRecord,
{
    let p = spec_pairs_of_tx(tx);
    lemma_text_round_trip(tx, tail);
    assert(p.len() == 8);
    match r {
        Ok(Some(tx2)) => {
            crate::fields::lemma_fields_decode_unique(tx2, tx, spec_ordered_values(p));
        },
        _ => {},
    }
}

} // verus!
