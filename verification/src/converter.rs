use vstd::prelude::*;
use crate::error::ParsError;
use crate::transaction::Transaction;
use crate::tx_format::TxReader;
use crate::tx_format::TxWriter;
use crate::tx_format::tx_read_step;
use crate::tx_format::tx_write_step;
use crate::tx_format::tx_reader_init;
use crate::tx_format::tx_writer_init;
use crate::tx_format::tx_reader_rest;
use crate::tx_format::tx_writer_stream;
use crate::tx_format::lemma_tx_read_progress;
use crate::bin_format::BinTxReader;
use crate::bin_format::BinParse;
use crate::bin_format::spec_bin_parse;
use crate::bin_format::spec_bin_tx_bytes;
use crate::bin_format::bin_read_step;
use crate::bin_format::lemma_bin_round_trip;
use crate::text_format::TextReader;
use crate::text_format::TextState;
use crate::text_format::spec_text_tx_bytes;
use crate::text_format::text_read_step;
use crate::text_format::lemma_text_round_trip;
use crate::utils::QUOTE;
use crate::utils::BACKSLASH;
use crate::utils::NEWLINE;
use crate::utils::lemma_skip_advance;
use crate::csv_format::CsvTxReader;
use crate::csv_format::CsvState;
use crate::csv_format::spec_row_bytes;
use crate::csv_format::spec_header_bytes;
use crate::fields::spec_header_fields;
use crate::csv_format::spec_csv_row;
use crate::csv_format::csv_read_step;
use crate::csv_format::lemma_csv_round_trip;
use crate::csv_format::lemma_csv_header_round_trip;
use crate::fields::spec_fields_of_tx;

verus! {

/// The reader, starting from `r0`, yields exactly the records `txs` in
/// order and is left as `r1`.
pub open spec fn reads_to(r0: TxReader, txs: Seq<Transaction>, r1: TxReader) -> bool
    decreases txs.len(),
{
    if txs.len() == 0 {
        r1 == r0
    } else {
        exists|mid: TxReader|
            #[trigger] tx_read_step(r0, mid, Ok(Some(txs[0]))) && reads_to(
                mid,
                txs.drop_first(),
                r1,
            )
    }
}

/// The writer, starting from `w0`, accepts exactly the records `txs` in
/// order and is left as `w1`.
pub open spec fn writes_to(w0: TxWriter, txs: Seq<Transaction>, w1: TxWriter) -> bool
    decreases txs.len(),
{
    if txs.len() == 0 {
        w1 == w0
    } else {
        exists|mid: TxWriter|
            #[trigger] tx_write_step(w0, mid, txs[0], Ok(())) && writes_to(
                mid,
                txs.drop_first(),
                w1,
            )
    }
}

/// Extending a read run by one more record.
pub proof fn lemma_reads_to_snoc(
    r0: TxReader,
    txs: Seq<Transaction>,
    r1: TxReader,
    tx: Transaction,
    r2: TxReader,
)
    requires
        reads_to(r0, txs, r1),
        tx_read_step(r1, r2, Ok(Some(tx))),
    ensures
        reads_to(r0, txs.push(tx), r2),
    decreases txs.len(),
{
    if txs.len() == 0 {
        assert(txs.push(tx)[0] == tx);
        assert(txs.push(tx).drop_first() =~= txs);
        assert(tx_read_step(r0, r2, Ok(Some(tx))));
        assert(reads_to(r2, txs.push(tx).drop_first(), r2));
    } else {
        let mid = choose|mid: TxReader|
            #[trigger] tx_read_step(r0, mid, Ok(Some(txs[0]))) && reads_to(
                mid,
                txs.drop_first(),
                r1,
            );
        lemma_reads_to_snoc(mid, txs.drop_first(), r1, tx, r2);
        assert(txs.push(tx)[0] == txs[0]);
        assert(txs.push(tx).drop_first() =~= txs.drop_first().push(tx));
        assert(tx_read_step(r0, mid, Ok(Some(txs.push(tx)[0]))));
    }
}

/// Extending a write run by one more record.
pub proof fn lemma_writes_to_snoc(
    w0: TxWriter,
    txs: Seq<Transaction>,
    w1: TxWriter,
    tx: Transaction,
    w2: TxWriter,
)
    requires
        writes_to(w0, txs, w1),
        tx_write_step(w1, w2, tx, Ok(())),
    ensures
        writes_to(w0, txs.push(tx), w2),
    decreases txs.len(),
{
    if txs.len() == 0 {
        assert(txs.push(tx)[0] == tx);
        assert(txs.push(tx).drop_first() =~= txs);
        assert(tx_write_step(w0, w2, tx, Ok(())));
        assert(writes_to(w2, txs.push(tx).drop_first(), w2));
    } else {
        let mid = choose|mid: TxWriter|
            #[trigger] tx_write_step(w0, mid, txs[0], Ok(())) && writes_to(
                mid,
                txs.drop_first(),
                w1,
            );
        lemma_writes_to_snoc(mid, txs.drop_first(), w1, tx, w2);
        assert(txs.push(tx)[0] == txs[0]);
        assert(txs.push(tx).drop_first() =~= txs.drop_first().push(tx));
        assert(tx_write_step(w0, mid, txs.push(tx)[0], Ok(())));
    }
}

/// The whole conversion succeeded: some record sequence was read cleanly
/// to the end of the source and written whole, and the output is what the
/// destination writer produced.
pub open spec fn spec_converted(
    from: Seq<u8>,
    from_fmt: Seq<char>,
    to_fmt: Seq<char>,
    out: Seq<u8>,
) -> bool {
    exists|
        r0: TxReader,
        w0: TxWriter,
        txs: Seq<Transaction>,
        r1: TxReader,
        r2: TxReader,
        w1: TxWriter,
    |
        #![trigger reads_to(r0, txs, r1), writes_to(w0, txs, w1), tx_read_step(r1, r2, Ok::<Option<Transaction>, ParsError>(None))]
        {
            &&& tx_reader_init(r0, from, from_fmt)
            &&& tx_writer_init(w0, Seq::empty(), to_fmt)
            &&& reads_to(r0, txs, r1)
            &&& tx_read_step(r1, r2, Ok::<Option<Transaction>, ParsError>(None))
            &&& writes_to(w0, txs, w1)
            &&& out == tx_writer_stream(w1)
        }
}

/// The step on which a conversion stops: either the next read fails, or it
/// yields a record whose write fails.
pub open spec fn spec_failing_step(r1: TxReader, r2: TxReader, w1: TxWriter, e: ParsError) -> bool {
    ||| tx_read_step(r1, r2, Err::<Option<Transaction>, ParsError>(e))
    ||| exists|tx: Transaction, w2: TxWriter|
        tx_read_step(r1, r2, Ok::<Option<Transaction>, ParsError>(Some(tx))) && #[trigger] tx_write_step(
            w1,
            w2,
            tx,
            Err::<(), ParsError>(e),
        )
}

/// The conversion stopped on the given error: some prefix of records was
/// read and written, and then either the next read or the next write
/// failed with exactly that error.
pub open spec fn spec_convert_failed(
    from: Seq<u8>,
    from_fmt: Seq<char>,
    to_fmt: Seq<char>,
    e: ParsError,
) -> bool {
    exists|
        r0: TxReader,
        w0: TxWriter,
        txs: Seq<Transaction>,
        r1: TxReader,
        r2: TxReader,
        w1: TxWriter,
    |
        #![trigger reads_to(r0, txs, r1), writes_to(w0, txs, w1), spec_failing_step(r1, r2, w1, e)]
        {
            &&& tx_reader_init(r0, from, from_fmt)
            &&& tx_writer_init(w0, Seq::empty(), to_fmt)
            &&& reads_to(r0, txs, r1)
            &&& writes_to(w0, txs, w1)
            &&& spec_failing_step(r1, r2, w1, e)
        }
}

/// Reads every record from the source stream in its format and writes each
/// one to a fresh destination stream in the destination format, stopping
/// cleanly at end of data; the first error aborts the conversion, and
/// nothing already written is taken back.
pub fn convert(from: Vec<u8>, from_format: &str, to_format: &str) -> (r: Result<
    Vec<u8>,
    ParsError,
>)
    ensures
        r matches Ok(out) ==> spec_converted(from@, from_format@, to_format@, out@),
        r matches Err(e) ==> spec_convert_failed(from@, from_format@, to_format@, e),
{
    let ghost from_snapshot = from@;
    let mut reader = match TxReader::new(from, from_format) {
        Ok(rd) => rd,
        Err(e) => {
            // the constructors never fail
            proof {
                assert(false);
            }
            return Err(e);
        },
    };
    let mut writer = match TxWriter::new(Vec::new(), to_format) {
        Ok(w) => w,
        Err(e) => {
            // the constructors never fail
            proof {
                assert(false);
            }
            return Err(e);
        },
    };
    let ghost r0 = reader;
    let ghost w0 = writer;
    let ghost mut txs: Seq<Transaction> = Seq::empty();
    proof {
        assert(reads_to(r0, txs, reader));
        assert(writes_to(w0, txs, writer));
    }
    loop
        invariant
            reader.wf(),
            tx_reader_init(r0, from_snapshot, from_format@),
            tx_writer_init(w0, Seq::empty(), to_format@),
            reads_to(r0, txs, reader),
            writes_to(w0, txs, writer),
        decreases tx_reader_rest(reader).len(),
    {
        let ghost pre_reader = reader;
        let res = reader.read_transaction();
        match res {
            Ok(Some(tx)) => {
                proof {
                    lemma_tx_read_progress(pre_reader, reader, tx);
                }
                let ghost pre_writer = writer;
                let wres = writer.write_transaction(&tx);
                match wres {
                    Ok(()) => {
                        proof {
                            lemma_reads_to_snoc(r0, txs, pre_reader, tx, reader);
                            lemma_writes_to_snoc(w0, txs, pre_writer, tx, writer);
                            txs = txs.push(tx);
                        }
                    },
                    Err(e) => {
                        proof {
                            assert(tx_read_step(pre_reader, reader, Ok(Some(tx)))
                                && tx_write_step(pre_writer, writer, tx, Err(e)));
                            assert(reads_to(r0, txs, pre_reader));
                            assert(writes_to(w0, txs, pre_writer));
                            assert(spec_failing_step(pre_reader, reader, pre_writer, e));
                        }
                        return Err(e);
                    },
                }
            },
            Ok(None) => {
                let ghost w_end = writer;
                let out = writer.into_stream();
                proof {
                    assert(tx_read_step(pre_reader, reader, Ok(None::<Transaction>)));
                    assert(reads_to(r0, txs, pre_reader) && writes_to(w0, txs, w_end)
                        && tx_read_step(pre_reader, reader, Ok(None::<Transaction>)));
                }
                return Ok(out);
            },
            Err(e) => {
                proof {
                    assert(reads_to(r0, txs, pre_reader));
                    assert(writes_to(w0, txs, writer));
                    assert(tx_read_step(pre_reader, reader, Err(e)));
                    assert(spec_failing_step(pre_reader, reader, writer, e));
                }
                return Err(e);
            },
        }
    }
}


// ---------------------------------------------------------------------------
// Stream round trips
// ---------------------------------------------------------------------------

/// The reader yields exactly the records `txs` and then reports clean end
/// of data.
pub open spec fn reads_exactly(r0: TxReader, txs: Seq<Transaction>) -> bool {
    exists|r1: TxReader, r2: TxReader|
        #![trigger reads_to(r0, txs, r1), tx_read_step(r1, r2, Ok::<Option<Transaction>, ParsError>(None))]
        reads_to(r0, txs, r1) && tx_read_step(r1, r2, Ok::<Option<Transaction>, ParsError>(None))
}

/// Every record of the sequence can be represented by every encoding, with
/// a description that keeps clear of the escape machinery.
pub open spec fn all_representable(txs: Seq<Transaction>) -> bool {
    forall|i: int|
        0 <= i < txs.len() ==> (#[trigger] txs[i]).wf() && forall|j: int|
            0 <= j < txs[i].description@.len() ==> #[trigger] txs[i].description@[j] != QUOTE
                && txs[i].description@[j] != BACKSLASH && txs[i].description@[j] != NEWLINE
}

/// The byte image of a record sequence in the binary format.
pub open spec fn spec_bin_stream(txs: Seq<Transaction>) -> Seq<u8>
    decreases txs.len(),
{
    if txs.len() == 0 {
        Seq::empty()
    } else {
        spec_bin_tx_bytes(txs[0]) + spec_bin_stream(txs.drop_first())
    }
}

/// The byte image of a record sequence in the text format.
pub open spec fn spec_text_stream(txs: Seq<Transaction>) -> Seq<u8>
    decreases txs.len(),
{
    if txs.len() == 0 {
        Seq::empty()
    } else {
        spec_text_tx_bytes(txs[0]) + spec_text_stream(txs.drop_first())
    }
}

/// Law: any binary reader whose unconsumed input is the byte image of a
/// representable record sequence yields exactly those records and then
/// clean end of data.
pub proof fn lemma_bin_stream_reads(r0: BinTxReader, txs: Seq<Transaction>)
    requires
        r0.wf(),
        r0.data@.len() <= usize::MAX,
        r0.data@.skip(r0.pos as int) == spec_bin_stream(txs),
        all_representable(txs),
    ensures
        reads_exactly(TxReader::Bin(r0), txs),
    decreases txs.len(),
{
    if txs.len() == 0 {
        assert(reads_to(TxReader::Bin(r0), txs, TxReader::Bin(r0)));
        assert(spec_bin_parse(r0.data@.skip(r0.pos as int)) is Eos);
        assert(bin_read_step(r0, r0, Ok::<Option<Transaction>, ParsError>(None)));
        assert(tx_read_step(
            TxReader::Bin(r0),
            TxReader::Bin(r0),
            Ok::<Option<Transaction>, ParsError>(None),
        ));
    } else {
        let tx0 = txs[0];
        let enc = spec_bin_tx_bytes(tx0);
        let rest = spec_bin_stream(txs.drop_first());
        assert(tx0.wf());
        lemma_bin_round_trip(tx0, rest);
        let mid = BinTxReader { data: r0.data, pos: (r0.pos + enc.len()) as usize };
        lemma_skip_advance(r0.data@, r0.pos as int, enc, rest);
        assert(r0.data@.skip(r0.pos as int).len() == r0.data@.len() - r0.pos);
        assert(mid.pos == r0.pos + enc.len());
        assert(mid.wf());
        assert(mid.data@.skip(mid.pos as int) == rest);
        assert(bin_read_step(r0, mid, Ok::<Option<Transaction>, ParsError>(Some(tx0))));
        assert(tx_read_step(
            TxReader::Bin(r0),
            TxReader::Bin(mid),
            Ok::<Option<Transaction>, ParsError>(Some(tx0)),
        ));
        assert(all_representable(txs.drop_first())) by {
            assert(forall|i: int|
                0 <= i < txs.drop_first().len() ==> #[trigger] txs.drop_first()[i] == txs[i
                    + 1]);
        }
        lemma_bin_stream_reads(mid, txs.drop_first());
        let (r1, r2) = choose|r1: TxReader, r2: TxReader|
            #![trigger reads_to(TxReader::Bin(mid), txs.drop_first(), r1), tx_read_step(r1, r2, Ok::<Option<Transaction>, ParsError>(None))]
            reads_to(TxReader::Bin(mid), txs.drop_first(), r1) && tx_read_step(
                r1,
                r2,
                Ok::<Option<Transaction>, ParsError>(None),
            );
        assert(reads_to(TxReader::Bin(r0), txs, r1));
    }
}

/// Law: any text reader whose unconsumed input is the byte image of a
/// representable record sequence yields exactly those records and then
/// clean end of data.
pub proof fn lemma_text_stream_reads(r0: TextReader, txs: Seq<Transaction>)
    requires
        r0.wf(),
        r0.parser.data@.len() <= usize::MAX,
        r0.parser.state == TextState::WaitStartRecord,
        r0.parser.data@.skip(r0.parser.pos as int) == spec_text_stream(txs),
        all_representable(txs),
    ensures
        reads_exactly(TxReader::Text(r0), txs),
    decreases txs.len(),
{
    if txs.len() == 0 {
        assert(reads_to(TxReader::Text(r0), txs, TxReader::Text(r0)));
        let blk = crate::text_format::spec_text_block(
            r0.parser.state,
            r0.parser.data@.skip(r0.parser.pos as int),
        );
        assert(blk.pairs.len() == 0);
        assert(text_read_step(r0, r0, Ok::<Option<Transaction>, ParsError>(None)));
        assert(tx_read_step(
            TxReader::Text(r0),
            TxReader::Text(r0),
            Ok::<Option<Transaction>, ParsError>(None),
        ));
    } else {
        let tx0 = txs[0];
        let enc = spec_text_tx_bytes(tx0);
        let rest = spec_text_stream(txs.drop_first());
        assert(tx0.wf());
        lemma_text_round_trip(tx0, rest);
        let mid = TextReader {
            parser: crate::text_format::Parser {
                state: TextState::WaitStartRecord,
                data: r0.parser.data,
                pos: (r0.parser.pos + enc.len()) as usize,
            },
        };
        lemma_skip_advance(r0.parser.data@, r0.parser.pos as int, enc, rest);
        assert(r0.parser.data@.skip(r0.parser.pos as int).len() == r0.parser.data@.len()
            - r0.parser.pos);
        assert(mid.parser.pos == r0.parser.pos + enc.len());
        assert(mid.wf());
        assert(mid.parser.data@.skip(mid.parser.pos as int) == rest);
        assert(crate::text_format::spec_pairs_of_tx(tx0).len() == 8);
        assert(text_read_step(r0, mid, Ok::<Option<Transaction>, ParsError>(Some(tx0))));
        assert(tx_read_step(
            TxReader::Text(r0),
            TxReader::Text(mid),
            Ok::<Option<Transaction>, ParsError>(Some(tx0)),
        ));
        assert(all_representable(txs.drop_first())) by {
            assert(forall|i: int|
                0 <= i < txs.drop_first().len() ==> #[trigger] txs.drop_first()[i] == txs[i
                    + 1]);
        }
        lemma_text_stream_reads(mid, txs.drop_first());
        let (r1, r2) = choose|r1: TxReader, r2: TxReader|
            #![trigger reads_to(TxReader::Text(mid), txs.drop_first(), r1), tx_read_step(r1, r2, Ok::<Option<Transaction>, ParsError>(None))]
            reads_to(TxReader::Text(mid), txs.drop_first(), r1) && tx_read_step(
                r1,
                r2,
                Ok::<Option<Transaction>, ParsError>(None),
            );
        assert(reads_to(TxReader::Text(r0), txs, r1));
    }
}


/// The byte image of a record sequence's rows in the CSV format, without
/// the header line.
pub open spec fn spec_csv_rows(txs: Seq<Transaction>) -> Seq<u8>
    decreases txs.len(),
{
    if txs.len() == 0 {
        Seq::empty()
    } else {
        spec_row_bytes(spec_fields_of_tx(txs[0])) + spec_csv_rows(txs.drop_first())
    }
}

/// Law: any CSV reader past its header whose unconsumed input is the byte
/// image of a record sequence's rows yields exactly those records and then
/// clean end of data.
pub proof fn lemma_csv_rows_read(r0: CsvTxReader, txs: Seq<Transaction>)
    requires
        r0.wf(),
        r0.parser.data@.len() <= usize::MAX,
        r0.header_read,
        r0.parser.state == CsvState::WaitStartRecord,
        r0.parser.data@.skip(r0.parser.pos as int) == spec_csv_rows(txs),
        all_representable(txs),
    ensures
        reads_exactly(TxReader::Csv(r0), txs),
    decreases txs.len(),
{
    if txs.len() == 0 {
        assert(reads_to(TxReader::Csv(r0), txs, TxReader::Csv(r0)));
        let row = spec_csv_row(r0.parser.state, r0.parser.data@.skip(r0.parser.pos as int));
        assert(row.fields.len() == 0);
        assert(csv_read_step(r0, r0, Ok::<Option<Transaction>, ParsError>(None)));
        assert(tx_read_step(
            TxReader::Csv(r0),
            TxReader::Csv(r0),
            Ok::<Option<Transaction>, ParsError>(None),
        ));
    } else {
        let tx0 = txs[0];
        let enc = spec_row_bytes(spec_fields_of_tx(tx0));
        let rest = spec_csv_rows(txs.drop_first());
        assert(tx0.wf());
        lemma_csv_round_trip(tx0, rest);
        let mid = CsvTxReader {
            parser: crate::csv_format::Parser {
                state: CsvState::WaitStartRecord,
                data: r0.parser.data,
                pos: (r0.parser.pos + enc.len()) as usize,
            },
            header_read: true,
        };
        lemma_skip_advance(r0.parser.data@, r0.parser.pos as int, enc, rest);
        assert(r0.parser.data@.skip(r0.parser.pos as int).len() == r0.parser.data@.len()
            - r0.parser.pos);
        assert(mid.parser.pos == r0.parser.pos + enc.len());
        assert(mid.wf());
        assert(mid.parser.data@.skip(mid.parser.pos as int) == rest);
        assert(spec_fields_of_tx(tx0).len() == 8);
        assert(csv_read_step(r0, mid, Ok::<Option<Transaction>, ParsError>(Some(tx0))));
        assert(tx_read_step(
            TxReader::Csv(r0),
            TxReader::Csv(mid),
            Ok::<Option<Transaction>, ParsError>(Some(tx0)),
        ));
        assert(all_representable(txs.drop_first())) by {
            assert(forall|i: int|
                0 <= i < txs.drop_first().len() ==> #[trigger] txs.drop_first()[i] == txs[i
                    + 1]);
        }
        lemma_csv_rows_read(mid, txs.drop_first());
        let (r1, r2) = choose|r1: TxReader, r2: TxReader|
            #![trigger reads_to(TxReader::Csv(mid), txs.drop_first(), r1), tx_read_step(r1, r2, Ok::<Option<Transaction>, ParsError>(None))]
            reads_to(TxReader::Csv(mid), txs.drop_first(), r1) && tx_read_step(
                r1,
                r2,
                Ok::<Option<Transaction>, ParsError>(None),
            );
        assert(reads_to(TxReader::Csv(r0), txs, r1));
    }
}

/// Law: any fresh CSV reader whose input is the header line and then the
/// byte image of a representable record sequence's rows yields exactly
/// those records and then clean end of data. Since each format's byte
/// image is a function of the records alone, chaining these laws means a
/// conversion through any sequence of formats preserves the records.
pub proof fn lemma_csv_fresh_read(r0: CsvTxReader, txs: Seq<Transaction>)
    requires
        r0.wf(),
        r0.parser.data@.len() <= usize::MAX,
        !r0.header_read,
        r0.parser.state == CsvState::WaitStartRecord,
        r0.parser.data@.skip(r0.parser.pos as int) == spec_header_bytes() + spec_csv_rows(txs),
        all_representable(txs),
    ensures
        reads_exactly(TxReader::Csv(r0), txs),
{
    let inp = r0.parser.data@.skip(r0.parser.pos as int);
    lemma_csv_header_round_trip(spec_csv_rows(txs));
    let h = spec_csv_row(r0.parser.state, inp);
    assert(h.fields == spec_header_fields());
    assert(h.rest == spec_csv_rows(txs));
    assert(h.st == CsvState::WaitStartRecord);
    assert(inp.len() == r0.parser.data@.len() - r0.parser.pos);
    if txs.len() == 0 {
        let end = CsvTxReader {
            parser: crate::csv_format::Parser {
                state: CsvState::WaitStartRecord,
                data: r0.parser.data,
                pos: (r0.parser.pos + spec_header_bytes().len()) as usize,
            },
            header_read: true,
        };
        lemma_skip_advance(
            r0.parser.data@,
            r0.parser.pos as int,
            spec_header_bytes(),
            spec_csv_rows(txs),
        );
        assert(end.parser.data@.skip(end.parser.pos as int) == spec_csv_rows(txs));
        let row = spec_csv_row(CsvState::WaitStartRecord, spec_csv_rows(txs));
        assert(row.fields.len() == 0);
        assert(csv_read_step(r0, end, Ok::<Option<Transaction>, ParsError>(None)));
        assert(reads_to(TxReader::Csv(r0), txs, TxReader::Csv(r0)));
        assert(tx_read_step(
            TxReader::Csv(r0),
            TxReader::Csv(end),
            Ok::<Option<Transaction>, ParsError>(None),
        ));
    } else {
        let tx0 = txs[0];
        let enc = spec_row_bytes(spec_fields_of_tx(tx0));
        let rest = spec_csv_rows(txs.drop_first());
        assert(tx0.wf());
        lemma_csv_round_trip(tx0, rest);
        assert(spec_csv_rows(txs) == enc + rest);
        let consumed = spec_header_bytes() + enc;
        assert(inp == consumed + rest) by {
            assert((spec_header_bytes() + (enc + rest)) =~= (spec_header_bytes() + enc) + rest);
        }
        let mid = CsvTxReader {
            parser: crate::csv_format::Parser {
                state: CsvState::WaitStartRecord,
                data: r0.parser.data,
                pos: (r0.parser.pos + consumed.len()) as usize,
            },
            header_read: true,
        };
        lemma_skip_advance(r0.parser.data@, r0.parser.pos as int, consumed, rest);
        assert(mid.parser.pos == r0.parser.pos + consumed.len());
        assert(mid.wf());
        assert(mid.parser.data@.skip(mid.parser.pos as int) == rest);
        assert(spec_fields_of_tx(tx0).len() == 8);
        assert(csv_read_step(r0, mid, Ok::<Option<Transaction>, ParsError>(Some(tx0))));
        assert(tx_read_step(
            TxReader::Csv(r0),
            TxReader::Csv(mid),
            Ok::<Option<Transaction>, ParsError>(Some(tx0)),
        ));
        assert(all_representable(txs.drop_first())) by {
            assert(forall|i: int|
                0 <= i < txs.drop_first().len() ==> #[trigger] txs.drop_first()[i] == txs[i
                    + 1]);
        }
        lemma_csv_rows_read(mid, txs.drop_first());
        let (r1, r2) = choose|r1: TxReader, r2: TxReader|
            #![trigger reads_to(TxReader::Csv(mid), txs.drop_first(), r1), tx_read_step(r1, r2, Ok::<Option<Transaction>, ParsError>(None))]
            reads_to(TxReader::Csv(mid), txs.drop_first(), r1) && tx_read_step(
                r1,
                r2,
                Ok::<Option<Transaction>, ParsError>(None),
            );
        assert(reads_to(TxReader::Csv(r0), txs, r1));
    }
}


/// A run of binary writes appends exactly the byte images of the records.
proof fn lemma_bin_writes_shape(w0: TxWriter, txs: Seq<Transaction>, w1: TxWriter)
    requires
        w0 matches TxWriter::Bin(_),
        writes_to(w0, txs, w1),
    ensures
        w1 matches TxWriter::Bin(_),
        tx_writer_stream(w1) == tx_writer_stream(w0) + spec_bin_stream(txs),
    decreases txs.len(),
{
    if txs.len() == 0 {
        assert(tx_writer_stream(w0) + spec_bin_stream(txs) =~= tx_writer_stream(w0));
    } else {
        let mid = choose|mid: TxWriter|
            #[trigger] tx_write_step(w0, mid, txs[0], Ok(())) && writes_to(
                mid,
                txs.drop_first(),
                w1,
            );
        lemma_bin_writes_shape(mid, txs.drop_first(), w1);
        assert((tx_writer_stream(w0) + spec_bin_tx_bytes(txs[0])) + spec_bin_stream(
            txs.drop_first(),
        ) =~= tx_writer_stream(w0) + (spec_bin_tx_bytes(txs[0]) + spec_bin_stream(
            txs.drop_first(),
        )));
    }
}

/// A run of text writes appends exactly the byte images of the records.
proof fn lemma_text_writes_shape(w0: TxWriter, txs: Seq<Transaction>, w1: TxWriter)
    requires
        w0 matches TxWriter::Text(_),
        writes_to(w0, txs, w1),
    ensures
        w1 matches TxWriter::Text(_),
        tx_writer_stream(w1) == tx_writer_stream(w0) + spec_text_stream(txs),
    decreases txs.len(),
{
    if txs.len() == 0 {
        assert(tx_writer_stream(w0) + spec_text_stream(txs) =~= tx_writer_stream(w0));
    } else {
        let mid = choose|mid: TxWriter|
            #[trigger] tx_write_step(w0, mid, txs[0], Ok(())) && writes_to(
                mid,
                txs.drop_first(),
                w1,
            );
        lemma_text_writes_shape(mid, txs.drop_first(), w1);
        assert((tx_writer_stream(w0) + spec_text_tx_bytes(txs[0])) + spec_text_stream(
            txs.drop_first(),
        ) =~= tx_writer_stream(w0) + (spec_text_tx_bytes(txs[0]) + spec_text_stream(
            txs.drop_first(),
        )));
    }
}

/// A run of CSV writes past the header appends exactly the rows of the
/// records.
proof fn lemma_csv_writes_shape_rows(w0: TxWriter, txs: Seq<Transaction>, w1: TxWriter)
    requires
        w0 matches TxWriter::Csv(p) && p.header_written,
        writes_to(w0, txs, w1),
    ensures
        w1 matches TxWriter::Csv(q) && q.header_written,
        tx_writer_stream(w1) == tx_writer_stream(w0) + spec_csv_rows(txs),
    decreases txs.len(),
{
    if txs.len() == 0 {
        assert(tx_writer_stream(w0) + spec_csv_rows(txs) =~= tx_writer_stream(w0));
    } else {
        let mid = choose|mid: TxWriter|
            #[trigger] tx_write_step(w0, mid, txs[0], Ok(())) && writes_to(
                mid,
                txs.drop_first(),
                w1,
            );
        if let TxWriter::Csv(p) = w0 {
            assert(tx_writer_stream(mid) =~= tx_writer_stream(w0) + spec_row_bytes(
                spec_fields_of_tx(txs[0]),
            ));
        }
        lemma_csv_writes_shape_rows(mid, txs.drop_first(), w1);
        assert((tx_writer_stream(w0) + spec_row_bytes(spec_fields_of_tx(txs[0])))
            + spec_csv_rows(txs.drop_first()) =~= tx_writer_stream(w0) + (spec_row_bytes(
            spec_fields_of_tx(txs[0]),
        ) + spec_csv_rows(txs.drop_first())));
    }
}

/// A run of CSV writes from a fresh writer emits the header once, then
/// exactly the rows of the records.
proof fn lemma_csv_writes_shape(w0: TxWriter, txs: Seq<Transaction>, w1: TxWriter)
    requires
        w0 matches TxWriter::Csv(p) && !p.header_written,
        txs.len() > 0,
        writes_to(w0, txs, w1),
    ensures
        w1 matches TxWriter::Csv(q) && q.header_written,
        tx_writer_stream(w1) == tx_writer_stream(w0) + spec_header_bytes() + spec_csv_rows(txs),
    decreases txs.len(),
{
    let mid = choose|mid: TxWriter|
        #[trigger] tx_write_step(w0, mid, txs[0], Ok(())) && writes_to(
            mid,
            txs.drop_first(),
            w1,
        );
    if let TxWriter::Csv(p) = w0 {
        assert(tx_writer_stream(mid) =~= (tx_writer_stream(w0) + spec_header_bytes())
            + spec_row_bytes(spec_fields_of_tx(txs[0])));
    }
    lemma_csv_writes_shape_rows(mid, txs.drop_first(), w1);
    assert(((tx_writer_stream(w0) + spec_header_bytes()) + spec_row_bytes(spec_fields_of_tx(
        txs[0],
    ))) + spec_csv_rows(txs.drop_first()) =~= (tx_writer_stream(w0) + spec_header_bytes()) + (
    spec_row_bytes(spec_fields_of_tx(txs[0])) + spec_csv_rows(txs.drop_first())));
}

/// Law: a record sequence written whole by any of the three codecs is read
/// back from the produced bytes as exactly the same records, followed by
/// clean end of data. The one exception is an empty sequence in the CSV
/// format, whose writer emits nothing and whose reader then rejects the
/// headerless empty stream.
pub proof fn lemma_write_read_round_trip(
    fmt: Seq<char>,
    w0: TxWriter,
    txs: Seq<Transaction>,
    w1: TxWriter,
    r0: TxReader,
)
    requires
        fmt == "bin"@ || fmt == "csv"@ || fmt == "text"@,
        fmt == "csv"@ ==> txs.len() > 0,
        tx_writer_init(w0, Seq::empty(), fmt),
        writes_to(w0, txs, w1),
        all_representable(txs),
        tx_reader_init(r0, tx_writer_stream(w1), fmt),
        tx_writer_stream(w1).len() <= usize::MAX,
    ensures
        reads_exactly(r0, txs),
{
    lemma_format_names_distinct();
    if fmt == "bin"@ {
        lemma_bin_writes_shape(w0, txs, w1);
        if let TxReader::Bin(inner) = r0 {
            assert(inner.data@ == tx_writer_stream(w1));
            assert(tx_writer_stream(w1) =~= spec_bin_stream(txs));
            assert(inner.data@.skip(0) =~= inner.data@);
            lemma_bin_stream_reads(inner, txs);
        }
    } else if fmt == "csv"@ {
        lemma_csv_writes_shape(w0, txs, w1);
        if let TxReader::Csv(inner) = r0 {
            assert(inner.parser.data@ == tx_writer_stream(w1));
            assert(tx_writer_stream(w1) =~= spec_header_bytes() + spec_csv_rows(txs));
            assert(inner.parser.data@.skip(0) =~= inner.parser.data@);
            lemma_csv_fresh_read(inner, txs);
        }
    } else {
        lemma_text_writes_shape(w0, txs, w1);
        if let TxReader::Text(inner) = r0 {
            assert(inner.parser.data@ == tx_writer_stream(w1));
            assert(tx_writer_stream(w1) =~= spec_text_stream(txs));
            assert(inner.parser.data@.skip(0) =~= inner.parser.data@);
            lemma_text_stream_reads(inner, txs);
        }
    }
}

/// The three format names are pairwise distinct.
proof fn lemma_format_names_distinct()
    ensures
        "bin"@ != "csv"@,
        "bin"@ != "text"@,
        "csv"@ != "text"@,
{
    reveal_strlit("bin");
    reveal_strlit("csv");
    reveal_strlit("text");
    assert("bin"@.len() == 3 && "csv"@.len() == 3 && "text"@.len() == 4);
    assert("bin"@[0] == 'b' && "csv"@[0] == 'c');
}


// ---------------------------------------------------------------------------
// Determinism and the conversion chain
// ---------------------------------------------------------------------------

/// Two readers that cannot be told apart by reading: the same codec, the
/// same tokenizer state, and the same unconsumed bytes.
pub open spec fn same_obs(a: TxReader, b: TxReader) -> bool {
    match (a, b) {
        (TxReader::Csv(p), TxReader::Csv(q)) => p.parser.state == q.parser.state
            && p.header_read == q.header_read && p.parser.data@.skip(p.parser.pos as int)
            == q.parser.data@.skip(q.parser.pos as int),
        (TxReader::Text(p), TxReader::Text(q)) => p.parser.state == q.parser.state
            && p.parser.data@.skip(p.parser.pos as int) == q.parser.data@.skip(
            q.parser.pos as int,
        ),
        (TxReader::Bin(p), TxReader::Bin(q)) => p.data@.skip(p.pos as int) == q.data@.skip(
            q.pos as int,
        ),
        (TxReader::Unsupported(n), TxReader::Unsupported(m)) => n@ == m@,
        _ => false,
    }
}

/// A binary reader's position stays within its stream; vacuous for the
/// other codecs, whose relations never mention the position directly.
pub open spec fn bin_pos_wf(x: TxReader) -> bool {
    x matches TxReader::Bin(p) ==> p.wf()
}

/// Law: reading is deterministic. Two read calls on indistinguishable
/// readers agree: both find a record, and then the same logical record,
/// both report clean end of data, or both fail; and they leave
/// indistinguishable readers behind.
pub proof fn lemma_step_deterministic(
    a: TxReader,
    a2: TxReader,
    ra: Result<Option<Transaction>, ParsError>,
    b: TxReader,
    b2: TxReader,
    rb: Result<Option<Transaction>, ParsError>,
)
    requires
        tx_read_step(a, a2, ra),
        tx_read_step(b, b2, rb),
        same_obs(a, b),
        bin_pos_wf(a),
        bin_pos_wf(b),
    ensures
        forall|t1: Transaction|
            ra == Ok::<Option<Transaction>, ParsError>(Some(t1)) ==> (rb matches Ok(ob)
                && ob matches Some(t2) && crate::transaction::tx_equal(t1, t2) && same_obs(
                a2,
                b2,
            ) && bin_pos_wf(a2) && bin_pos_wf(b2)),
        ra == Ok::<Option<Transaction>, ParsError>(None) ==> rb == Ok::<
            Option<Transaction>,
            ParsError,
        >(None),
        ra is Err ==> rb is Err,
{
    match (a, b) {
        (TxReader::Csv(p), TxReader::Csv(q)) => {
            let inp = p.parser.data@.skip(p.parser.pos as int);
            if let (TxReader::Csv(p2), TxReader::Csv(q2)) = (a2, b2) {
                if !p.header_read {
                    let h = spec_csv_row(p.parser.state, inp);
                    if h.fields == spec_header_fields() {
                        let row = spec_csv_row(h.st, h.rest);
                        if row.fields.len() > 0 && crate::fields::spec_row_check(row.fields)
                            is None {
                            match (ra, rb) {
                                (Ok(Some(t1)), Ok(Some(t2))) => {
                                    crate::fields::lemma_fields_decode_unique(
                                        t1,
                                        t2,
                                        row.fields,
                                    );
                                },
                                _ => {},
                            }
                        }
                    }
                } else {
                    let row = spec_csv_row(p.parser.state, inp);
                    if row.fields.len() > 0 && crate::fields::spec_row_check(row.fields)
                        is None {
                        match (ra, rb) {
                            (Ok(Some(t1)), Ok(Some(t2))) => {
                                crate::fields::lemma_fields_decode_unique(t1, t2, row.fields);
                            },
                            _ => {},
                        }
                    }
                }
            }
        },
        (TxReader::Text(p), TxReader::Text(q)) => {
            let inp = p.parser.data@.skip(p.parser.pos as int);
            let blk = crate::text_format::spec_text_block(p.parser.state, inp);
            if blk.pairs.len() > 0 && crate::text_format::spec_text_check(blk.pairs) is None {
                match (ra, rb) {
                    (Ok(Some(t1)), Ok(Some(t2))) => {
                        crate::fields::lemma_fields_decode_unique(
                            t1,
                            t2,
                            crate::text_format::spec_ordered_values(blk.pairs),
                        );
                    },
                    _ => {},
                }
            }
        },
        (TxReader::Bin(p), TxReader::Bin(q)) => {
            let s = p.data@.skip(p.pos as int);
            if let BinParse::Rec(v, k) = spec_bin_parse(s) {
                if crate::bin_format::spec_bin_rec_check(v) is None {
                    match (ra, rb) {
                        (Ok(Some(t1)), Ok(Some(t2))) => {
                            crate::bin_format::lemma_bin_decode_unique(t1, t2, v);
                            if let (TxReader::Bin(p2), TxReader::Bin(q2)) = (a2, b2) {
                                assert(s.len() == p.data@.len() - p.pos);
                                assert(s.len() == q.data@.len() - q.pos);
                                assert(k <= s.len());
                                assert(p2.wf());
                                assert(q2.wf());
                                assert(p2.data@.skip(p2.pos as int) =~= s.skip(k));
                                assert(q2.data@.skip(q2.pos as int) =~= s.skip(k));
                            }
                        },
                        _ => {},
                    }
                }
            }
        },
        _ => {},
    }
}


/// Law: a complete read run is unique. Two runs from indistinguishable
/// readers, each reading records until clean end of data, find the same
/// number of records and the same logical record at every position.
pub proof fn lemma_reads_unique(
    a0: TxReader,
    txs_a: Seq<Transaction>,
    a1: TxReader,
    a1x: TxReader,
    b0: TxReader,
    txs_b: Seq<Transaction>,
    b1: TxReader,
    b1x: TxReader,
)
    requires
        reads_to(a0, txs_a, a1),
        tx_read_step(a1, a1x, Ok::<Option<Transaction>, ParsError>(None)),
        reads_to(b0, txs_b, b1),
        tx_read_step(b1, b1x, Ok::<Option<Transaction>, ParsError>(None)),
        same_obs(a0, b0),
        bin_pos_wf(a0),
        bin_pos_wf(b0),
    ensures
        txs_a.len() == txs_b.len(),
        forall|i: int|
            0 <= i < txs_a.len() ==> crate::transaction::tx_equal(
                #[trigger] txs_a[i],
                txs_b[i],
            ),
    decreases txs_a.len(),
{
    if txs_a.len() == 0 {
        if txs_b.len() != 0 {
            let mid_b = choose|mid: TxReader|
                #[trigger] tx_read_step(b0, mid, Ok(Some(txs_b[0]))) && reads_to(
                    mid,
                    txs_b.drop_first(),
                    b1,
                );
            // the first call cannot both end the stream and find a record
            lemma_step_deterministic(
                a1,
                a1x,
                Ok::<Option<Transaction>, ParsError>(None),
                b0,
                mid_b,
                Ok::<Option<Transaction>, ParsError>(Some(txs_b[0])),
            );
        }
    } else {
        let mid_a = choose|mid: TxReader|
            #[trigger] tx_read_step(a0, mid, Ok(Some(txs_a[0]))) && reads_to(
                mid,
                txs_a.drop_first(),
                a1,
            );
        if txs_b.len() == 0 {
            lemma_step_deterministic(
                a0,
                mid_a,
                Ok::<Option<Transaction>, ParsError>(Some(txs_a[0])),
                b1,
                b1x,
                Ok::<Option<Transaction>, ParsError>(None),
            );
        } else {
            let mid_b = choose|mid: TxReader|
                #[trigger] tx_read_step(b0, mid, Ok(Some(txs_b[0]))) && reads_to(
                    mid,
                    txs_b.drop_first(),
                    b1,
                );
            lemma_step_deterministic(
                a0,
                mid_a,
                Ok::<Option<Transaction>, ParsError>(Some(txs_a[0])),
                b0,
                mid_b,
                Ok::<Option<Transaction>, ParsError>(Some(txs_b[0])),
            );
            lemma_reads_unique(
                mid_a,
                txs_a.drop_first(),
                a1,
                a1x,
                mid_b,
                txs_b.drop_first(),
                b1,
                b1x,
            );
            assert(crate::transaction::tx_equal(txs_a[0], txs_b[0]));
            assert forall|i: int|
                0 <= i < txs_a.len() implies crate::transaction::tx_equal(
                #[trigger] txs_a[i],
                txs_b[i],
            ) by {
                if i > 0 {
                    assert(txs_a.drop_first()[i - 1] == txs_a[i]);
                    assert(txs_b.drop_first()[i - 1] == txs_b[i]);
                    assert(crate::transaction::tx_equal(
                        txs_a.drop_first()[i - 1],
                        txs_b.drop_first()[i - 1],
                    ));
                }
            }
        }
    }
}


/// Equal logical records have equal byte images in every format.
proof fn lemma_tx_equal_bytes(t1: Transaction, t2: Transaction)
    requires
        crate::transaction::tx_equal(t1, t2),
    ensures
        spec_fields_of_tx(t1) == spec_fields_of_tx(t2),
        spec_bin_tx_bytes(t1) == spec_bin_tx_bytes(t2),
        spec_text_tx_bytes(t1) == spec_text_tx_bytes(t2),
{
    assert(spec_fields_of_tx(t1) =~~= spec_fields_of_tx(t2));
    assert(crate::bin_format::spec_bin_from_tx(t1).description =~= crate::bin_format::spec_bin_from_tx(
        t2,
    ).description);
    assert(crate::bin_format::spec_bin_from_tx(t1) == crate::bin_format::spec_bin_from_tx(t2));
    assert(crate::text_format::spec_pairs_of_tx(t1) =~~= crate::text_format::spec_pairs_of_tx(
        t2,
    ));
}

/// Sequences of pairwise equal records have equal byte images in every
/// format.
proof fn lemma_streams_congruent(sa: Seq<Transaction>, sb: Seq<Transaction>)
    requires
        sa.len() == sb.len(),
        forall|i: int|
            0 <= i < sa.len() ==> crate::transaction::tx_equal(#[trigger] sa[i], sb[i]),
    ensures
        spec_bin_stream(sa) == spec_bin_stream(sb),
        spec_csv_rows(sa) == spec_csv_rows(sb),
        spec_text_stream(sa) == spec_text_stream(sb),
    decreases sa.len(),
{
    if sa.len() > 0 {
        lemma_tx_equal_bytes(sa[0], sb[0]);
        assert(forall|i: int|
            0 <= i < sa.drop_first().len() ==> #[trigger] sa.drop_first()[i] == sa[i + 1]
                && sb.drop_first()[i] == sb[i + 1]);
        lemma_streams_congruent(sa.drop_first(), sb.drop_first());
    }
}

/// Law: a conversion chain through all three formats returns the starting
/// bytes. Converting the binary image of a non-empty representable record
/// sequence to CSV, the result to text, and that result back to binary
/// reproduces the original binary stream byte for byte.
pub proof fn lemma_convert_chain(
    txs: Seq<Transaction>,
    o1: Seq<u8>,
    o2: Seq<u8>,
    o3: Seq<u8>,
)
    requires
        txs.len() > 0,
        all_representable(txs),
        spec_converted(spec_bin_stream(txs), "bin"@, "csv"@, o1),
        spec_converted(o1, "csv"@, "text"@, o2),
        spec_converted(o2, "text"@, "bin"@, o3),
        spec_bin_stream(txs).len() <= usize::MAX,
        o1.len() <= usize::MAX,
        o2.len() <= usize::MAX,
    ensures
        o3 == spec_bin_stream(txs),
{
    lemma_format_names_distinct();
    // first leg: whatever the converter read from the binary stream is the
    // original sequence, so the CSV output is its header and rows
    let (r0, w0, txs_a, r1, r2, w1) = choose|
        r0: TxReader,
        w0: TxWriter,
        txs_a: Seq<Transaction>,
        r1: TxReader,
        r2: TxReader,
        w1: TxWriter,
    |
        #![trigger reads_to(r0, txs_a, r1), writes_to(w0, txs_a, w1), tx_read_step(r1, r2, Ok::<Option<Transaction>, ParsError>(None))]
        {
            &&& tx_reader_init(r0, spec_bin_stream(txs), "bin"@)
            &&& tx_writer_init(w0, Seq::empty(), "csv"@)
            &&& reads_to(r0, txs_a, r1)
            &&& tx_read_step(r1, r2, Ok::<Option<Transaction>, ParsError>(None))
            &&& writes_to(w0, txs_a, w1)
            &&& o1 == tx_writer_stream(w1)
        };
    if let TxReader::Bin(inner) = r0 {
        assert(inner.data@.skip(0) =~= spec_bin_stream(txs));
        lemma_bin_stream_reads(inner, txs);
        let (ra1, ra2) = choose|ra1: TxReader, ra2: TxReader|
            #![trigger reads_to(TxReader::Bin(inner), txs, ra1), tx_read_step(ra1, ra2, Ok::<Option<Transaction>, ParsError>(None))]
            reads_to(TxReader::Bin(inner), txs, ra1) && tx_read_step(
                ra1,
                ra2,
                Ok::<Option<Transaction>, ParsError>(None),
            );
        assert(r0 == TxReader::Bin(inner));
        lemma_reads_unique(r0, txs, ra1, ra2, r0, txs_a, r1, r2);
        lemma_streams_congruent(txs, txs_a);
        lemma_csv_writes_shape(w0, txs_a, w1);
        assert(o1 =~= spec_header_bytes() + spec_csv_rows(txs)) by {
            assert(tx_writer_stream(w0) =~= Seq::<u8>::empty());
            assert(o1 =~= (Seq::<u8>::empty() + spec_header_bytes()) + spec_csv_rows(txs_a));
        }
    }
    // second leg: the CSV stream reads back as the same sequence, so the
    // text output is its blocks
    let (s0, x0, txs_b, s1, s2, x1) = choose|
        s0: TxReader,
        x0: TxWriter,
        txs_b: Seq<Transaction>,
        s1: TxReader,
        s2: TxReader,
        x1: TxWriter,
    |
        #![trigger reads_to(s0, txs_b, s1), writes_to(x0, txs_b, x1), tx_read_step(s1, s2, Ok::<Option<Transaction>, ParsError>(None))]
        {
            &&& tx_reader_init(s0, o1, "csv"@)
            &&& tx_writer_init(x0, Seq::empty(), "text"@)
            &&& reads_to(s0, txs_b, s1)
            &&& tx_read_step(s1, s2, Ok::<Option<Transaction>, ParsError>(None))
            &&& writes_to(x0, txs_b, x1)
            &&& o2 == tx_writer_stream(x1)
        };
    if let TxReader::Csv(inner) = s0 {
        assert(inner.parser.data@.skip(0) =~= spec_header_bytes() + spec_csv_rows(txs));
        lemma_csv_fresh_read(inner, txs);
        let (sb1, sb2) = choose|sb1: TxReader, sb2: TxReader|
            #![trigger reads_to(TxReader::Csv(inner), txs, sb1), tx_read_step(sb1, sb2, Ok::<Option<Transaction>, ParsError>(None))]
            reads_to(TxReader::Csv(inner), txs, sb1) && tx_read_step(
                sb1,
                sb2,
                Ok::<Option<Transaction>, ParsError>(None),
            );
        assert(s0 == TxReader::Csv(inner));
        lemma_reads_unique(s0, txs, sb1, sb2, s0, txs_b, s1, s2);
        lemma_streams_congruent(txs, txs_b);
        lemma_text_writes_shape(x0, txs_b, x1);
        assert(o2 =~= spec_text_stream(txs)) by {
            assert(tx_writer_stream(x0) =~= Seq::<u8>::empty());
            assert(o2 =~= Seq::<u8>::empty() + spec_text_stream(txs_b));
        }
    }
    // third leg: the text stream reads back as the same sequence, so the
    // binary output is the original stream
    let (u0, y0, txs_c, u1, u2, y1) = choose|
        u0: TxReader,
        y0: TxWriter,
        txs_c: Seq<Transaction>,
        u1: TxReader,
        u2: TxReader,
        y1: TxWriter,
    |
        #![trigger reads_to(u0, txs_c, u1), writes_to(y0, txs_c, y1), tx_read_step(u1, u2, Ok::<Option<Transaction>, ParsError>(None))]
        {
            &&& tx_reader_init(u0, o2, "text"@)
            &&& tx_writer_init(y0, Seq::empty(), "bin"@)
            &&& reads_to(u0, txs_c, u1)
            &&& tx_read_step(u1, u2, Ok::<Option<Transaction>, ParsError>(None))
            &&& writes_to(y0, txs_c, y1)
            &&& o3 == tx_writer_stream(y1)
        };
    if let TxReader::Text(inner) = u0 {
        assert(inner.parser.data@.skip(0) =~= spec_text_stream(txs));
        lemma_text_stream_reads(inner, txs);
        let (uc1, uc2) = choose|uc1: TxReader, uc2: TxReader|
            #![trigger reads_to(TxReader::Text(inner), txs, uc1), tx_read_step(uc1, uc2, Ok::<Option<Transaction>, ParsError>(None))]
            reads_to(TxReader::Text(inner), txs, uc1) && tx_read_step(
                uc1,
                uc2,
                Ok::<Option<Transaction>, ParsError>(None),
            );
        assert(u0 == TxReader::Text(inner));
        lemma_reads_unique(u0, txs, uc1, uc2, u0, txs_c, u1, u2);
        lemma_streams_congruent(txs, txs_c);
        lemma_bin_writes_shape(y0, txs_c, y1);
        assert(o3 =~= spec_bin_stream(txs)) by {
            assert(tx_writer_stream(y0) =~= Seq::<u8>::empty());
            assert(o3 =~= Seq::<u8>::empty() + spec_bin_stream(txs_c));
        }
    }
}

} // verus!
