use vstd::prelude::*;
use crate::bin_format::BinTxReader;
use crate::bin_format::BinTxWriter;
use crate::bin_format::bin_read_step;
use crate::bin_format::spec_bin_tx_bytes;
use crate::csv_format::CsvTxReader;
use crate::csv_format::CsvTxWriter;
use crate::csv_format::CsvState;
use crate::csv_format::csv_read_step;
use crate::csv_format::spec_header_bytes;
use crate::csv_format::spec_row_bytes;
use crate::fields::spec_fields_of_tx;
use crate::error::FormatReason;
use crate::error::ParsError;
use crate::text_format::TextReader;
use crate::text_format::TextWriter;
use crate::text_format::TextState;
use crate::text_format::text_read_step;
use crate::text_format::spec_text_tx_bytes;
use crate::transaction::Transaction;
use crate::utils::bytes_eq;
use vstd::utf8::is_ascii_chars;
use vstd::utf8::is_ascii_chars_encode_utf8;
use vstd::utf8::encode_utf8;
use vstd::utf8::encode_utf8_decode_utf8;
use vstd::string::StringSliceAdditionalSpecFns;

verus! {

broadcast use vstd::string::group_string_axioms;

/// An ASCII string names the same characters as an ASCII byte sequence
/// exactly when its UTF-8 bytes are that sequence; used to recognize the
/// format-name tokens.
proof fn lemma_ascii_token(s: &str, lit: Seq<char>, bytes: Seq<u8>)
    requires
        is_ascii_chars(lit),
        bytes.len() == lit.len(),
        forall|i: int| 0 <= i < lit.len() ==> bytes[i] == #[trigger] lit[i] as u8,
    ensures
        s.spec_bytes() == bytes <==> s@ == lit,
{
    is_ascii_chars_encode_utf8(lit);
    assert(encode_utf8(lit) =~= bytes);
    if s.spec_bytes() == bytes {
        encode_utf8_decode_utf8(s@);
        encode_utf8_decode_utf8(lit);
    }
}

/// A reader for any of the three formats, chosen once by a format-name
/// token; an unrecognized name is carried along and fails every read.
pub enum TxReader {
    Csv(CsvTxReader),
    Text(TextReader),
    Bin(BinTxReader),
    Unsupported(Vec<u8>),
}

/// The exact relation between a dispatching reader before and after one
/// read call, and the call's result.
pub open spec fn tx_read_step(
    pre: TxReader,
    post: TxReader,
    r: Result<Option<Transaction>, ParsError>,
) -> bool {
    match pre {
        TxReader::Csv(p) => post matches TxReader::Csv(q) && csv_read_step(p, q, r),
        TxReader::Text(p) => post matches TxReader::Text(q) && text_read_step(p, q, r),
        TxReader::Bin(p) => post matches TxReader::Bin(q) && bin_read_step(p, q, r),
        TxReader::Unsupported(name) => post == pre && (r matches Err(e) && e
            matches ParsError::WrongFormat(FormatReason::UnsupportedFormat(n)) && n@ == name@),
    }
}

impl TxReader {
    /// The position never runs past the end of the stream.
    pub open spec fn wf(self) -> bool {
        match self {
            TxReader::Csv(p) => p.wf(),
            TxReader::Text(p) => p.wf(),
            TxReader::Bin(p) => p.wf(),
            TxReader::Unsupported(_) => true,
        }
    }

    /// Chooses the codec named by the case-sensitive format token; any
    /// other name yields a reader whose reads all fail with that name.
    pub fn new(stream: Vec<u8>, fin_format: &str) -> (r: Result<TxReader, ParsError>)
        ensures
            r matches Ok(rd) && rd.wf() && tx_reader_init(rd, stream@, fin_format@),
            fin_format@ == "csv"@ ==> (r matches Ok(rd) && rd matches TxReader::Csv(inner)
                && inner.parser.data@ == stream@ && inner.parser.pos == 0 && inner.parser.state
                == CsvState::WaitStartRecord && !inner.header_read),
            fin_format@ == "text"@ ==> (r matches Ok(rd) && rd matches TxReader::Text(inner)
                && inner.parser.data@ == stream@ && inner.parser.pos == 0 && inner.parser.state
                == TextState::WaitStartRecord),
            fin_format@ == "bin"@ ==> (r matches Ok(rd) && rd matches TxReader::Bin(inner)
                && inner.data@ == stream@ && inner.pos == 0),
            fin_format@ != "csv"@ && fin_format@ != "text"@ && fin_format@ != "bin"@ ==> (r
                matches Ok(rd) && rd matches TxReader::Unsupported(name) && name@
                == fin_format.spec_bytes()),
    {
        proof {
            reveal_strlit("csv");
            reveal_strlit("text");
            reveal_strlit("bin");
            assert("csv"@ =~= seq!['c', 's', 'v']);
            assert("text"@ =~= seq!['t', 'e', 'x', 't']);
            assert("bin"@ =~= seq!['b', 'i', 'n']);
            lemma_ascii_token(fin_format, "csv"@, seq!['c' as u8, 's' as u8, 'v' as u8]);
            lemma_ascii_token(
                fin_format,
                "text"@,
                seq!['t' as u8, 'e' as u8, 'x' as u8, 't' as u8],
            );
            lemma_ascii_token(fin_format, "bin"@, seq!['b' as u8, 'i' as u8, 'n' as u8]);
        }
        let fb = fin_format.as_bytes();
        let csv_tok: Vec<u8> = vec!['c' as u8, 's' as u8, 'v' as u8];
        let text_tok: Vec<u8> = vec!['t' as u8, 'e' as u8, 'x' as u8, 't' as u8];
        let bin_tok: Vec<u8> = vec!['b' as u8, 'i' as u8, 'n' as u8];
        proof {
            assert(csv_tok@ =~= seq!['c' as u8, 's' as u8, 'v' as u8]);
            assert(text_tok@ =~= seq!['t' as u8, 'e' as u8, 'x' as u8, 't' as u8]);
            assert(bin_tok@ =~= seq!['b' as u8, 'i' as u8, 'n' as u8]);
        }
        if bytes_eq(fb, csv_tok.as_slice()) {
            match CsvTxReader::new(stream) {
                Ok(rd) => Ok(TxReader::Csv(rd)),
                Err(e) => Err(e),
            }
        } else if bytes_eq(fb, text_tok.as_slice()) {
            match TextReader::new(stream) {
                Ok(rd) => Ok(TxReader::Text(rd)),
                Err(e) => Err(e),
            }
        } else if bytes_eq(fb, bin_tok.as_slice()) {
            match BinTxReader::new(stream) {
                Ok(rd) => Ok(TxReader::Bin(rd)),
                Err(e) => Err(e),
            }
        } else {
            let mut name: Vec<u8> = Vec::new();
            name.extend_from_slice(fb);
            proof {
                assert(name@ =~= fin_format.spec_bytes());
            }
            Ok(TxReader::Unsupported(name))
        }
    }

    /// Reads the next transaction through whichever codec was chosen;
    /// clean end of data is reported as no further records.
    pub fn read_transaction(&mut self) -> (r: Result<Option<Transaction>, ParsError>)
        requires
            old(self).wf(),
        ensures
            final(self).wf(),
            tx_read_step(*old(self), *final(self), r),
    {
        match self {
            TxReader::Csv(rd) => rd.read_transaction(),
            TxReader::Text(rd) => rd.read_fin_data(),
            TxReader::Bin(rd) => rd.read_transaction(),
            TxReader::Unsupported(name) => Err(
                ParsError::WrongFormat(FormatReason::UnsupportedFormat(name.clone())),
            ),
        }
    }
}

/// A writer for any of the three formats, chosen once by a format-name
/// token; an unrecognized name is carried along and fails every write.
pub enum TxWriter {
    Csv(CsvTxWriter),
    Text(TextWriter),
    Bin(BinTxWriter),
    Unsupported(Vec<u8>),
}

/// The bytes a writer has produced so far.
pub open spec fn tx_writer_stream(w: TxWriter) -> Seq<u8> {
    match w {
        TxWriter::Csv(p) => p.stream@,
        TxWriter::Text(p) => p.stream@,
        TxWriter::Bin(p) => p.stream@,
        TxWriter::Unsupported(_) => Seq::empty(),
    }
}

/// The exact relation between a dispatching writer before and after one
/// write call, and the call's result.
pub open spec fn tx_write_step(
    pre: TxWriter,
    post: TxWriter,
    tx: Transaction,
    r: Result<(), ParsError>,
) -> bool {
    match pre {
        TxWriter::Csv(p) => post matches TxWriter::Csv(q) && r == Ok::<(), ParsError>(())
            && q.header_written && q.stream@ == p.stream@ + (if p.header_written {
            Seq::<u8>::empty()
        } else {
            spec_header_bytes()
        }) + spec_row_bytes(spec_fields_of_tx(tx)),
        TxWriter::Text(p) => post matches TxWriter::Text(q) && r == Ok::<(), ParsError>(())
            && q.stream@ == p.stream@ + spec_text_tx_bytes(tx),
        TxWriter::Bin(p) => post matches TxWriter::Bin(q) && r == Ok::<(), ParsError>(())
            && q.stream@ == p.stream@ + spec_bin_tx_bytes(tx),
        TxWriter::Unsupported(name) => post == pre && (r matches Err(e) && e
            matches ParsError::WrongFormat(FormatReason::UnsupportedFormat(n)) && n@ == name@),
    }
}

impl TxWriter {
    /// Chooses the codec named by the case-sensitive format token; any
    /// other name yields a writer whose writes all fail with that name.
    pub fn new(stream: Vec<u8>, fin_format: &str) -> (r: Result<TxWriter, ParsError>)
        ensures
            r matches Ok(w) && tx_writer_init(w, stream@, fin_format@),
            fin_format@ == "csv"@ ==> (r matches Ok(w) && w matches TxWriter::Csv(inner)
                && inner.stream@ == stream@ && !inner.header_written),
            fin_format@ == "text"@ ==> (r matches Ok(w) && w matches TxWriter::Text(inner)
                && inner.stream@ == stream@),
            fin_format@ == "bin"@ ==> (r matches Ok(w) && w matches TxWriter::Bin(inner)
                && inner.stream@ == stream@),
            fin_format@ != "csv"@ && fin_format@ != "text"@ && fin_format@ != "bin"@ ==> (r
                matches Ok(w) && w matches TxWriter::Unsupported(name) && name@
                == fin_format.spec_bytes()),
    {
        proof {
            reveal_strlit("csv");
            reveal_strlit("text");
            reveal_strlit("bin");
            assert("csv"@ =~= seq!['c', 's', 'v']);
            assert("text"@ =~= seq!['t', 'e', 'x', 't']);
            assert("bin"@ =~= seq!['b', 'i', 'n']);
            lemma_ascii_token(fin_format, "csv"@, seq!['c' as u8, 's' as u8, 'v' as u8]);
            lemma_ascii_token(
                fin_format,
                "text"@,
                seq!['t' as u8, 'e' as u8, 'x' as u8, 't' as u8],
            );
            lemma_ascii_token(fin_format, "bin"@, seq!['b' as u8, 'i' as u8, 'n' as u8]);
        }
        let fb = fin_format.as_bytes();
        let csv_tok: Vec<u8> = vec!['c' as u8, 's' as u8, 'v' as u8];
        let text_tok: Vec<u8> = vec!['t' as u8, 'e' as u8, 'x' as u8, 't' as u8];
        let bin_tok: Vec<u8> = vec!['b' as u8, 'i' as u8, 'n' as u8];
        proof {
            assert(csv_tok@ =~= seq!['c' as u8, 's' as u8, 'v' as u8]);
            assert(text_tok@ =~= seq!['t' as u8, 'e' as u8, 'x' as u8, 't' as u8]);
            assert(bin_tok@ =~= seq!['b' as u8, 'i' as u8, 'n' as u8]);
        }
        if bytes_eq(fb, csv_tok.as_slice()) {
            match CsvTxWriter::new(stream) {
                Ok(w) => Ok(TxWriter::Csv(w)),
                Err(e) => Err(e),
            }
        } else if bytes_eq(fb, text_tok.as_slice()) {
            match TextWriter::new(stream) {
                Ok(w) => Ok(TxWriter::Text(w)),
                Err(e) => Err(e),
            }
        } else if bytes_eq(fb, bin_tok.as_slice()) {
            match BinTxWriter::new(stream) {
                Ok(w) => Ok(TxWriter::Bin(w)),
                Err(e) => Err(e),
            }
        } else {
            let mut name: Vec<u8> = Vec::new();
            name.extend_from_slice(fb);
            proof {
                assert(name@ =~= fin_format.spec_bytes());
            }
            Ok(TxWriter::Unsupported(name))
        }
    }

    /// Writes one transaction through whichever codec was chosen.
    pub fn write_transaction(&mut self, tx: &Transaction) -> (r: Result<(), ParsError>)
        requires
            old(self) matches TxWriter::Bin(_) ==> tx.description@.len() + 2 <= u32::MAX,
        ensures
            tx_write_step(*old(self), *final(self), *tx, r),
    {
        match self {
            TxWriter::Csv(w) => w.write_transaction(tx),
            TxWriter::Text(w) => w.write_fin_data(tx),
            TxWriter::Bin(w) => w.write_transaction(tx),
            TxWriter::Unsupported(name) => Err(
                ParsError::WrongFormat(FormatReason::UnsupportedFormat(name.clone())),
            ),
        }
    }

    /// Hands back the bytes written so far.
    pub fn into_stream(self) -> (r: Vec<u8>)
        ensures
            r@ == tx_writer_stream(self),
    {
        match self {
            TxWriter::Csv(w) => w.stream,
            TxWriter::Text(w) => w.stream,
            TxWriter::Bin(w) => w.stream,
            TxWriter::Unsupported(_) => Vec::new(),
        }
    }
}


/// A freshly constructed reader for the given stream and format name.
pub open spec fn tx_reader_init(rd: TxReader, stream: Seq<u8>, fmt: Seq<char>) -> bool {
    if fmt == "csv"@ {
        rd matches TxReader::Csv(inner) && inner.parser.data@ == stream && inner.parser.pos == 0
            && inner.parser.state == CsvState::WaitStartRecord && !inner.header_read
    } else if fmt == "text"@ {
        rd matches TxReader::Text(inner) && inner.parser.data@ == stream && inner.parser.pos == 0
            && inner.parser.state == TextState::WaitStartRecord
    } else if fmt == "bin"@ {
        rd matches TxReader::Bin(inner) && inner.data@ == stream && inner.pos == 0
    } else {
        rd matches TxReader::Unsupported(name) && name@ == encode_utf8(fmt)
    }
}

/// A freshly constructed writer for the given initial buffer and format
/// name.
pub open spec fn tx_writer_init(w: TxWriter, stream: Seq<u8>, fmt: Seq<char>) -> bool {
    if fmt == "csv"@ {
        w matches TxWriter::Csv(inner) && inner.stream@ == stream && !inner.header_written
    } else if fmt == "text"@ {
        w matches TxWriter::Text(inner) && inner.stream@ == stream
    } else if fmt == "bin"@ {
        w matches TxWriter::Bin(inner) && inner.stream@ == stream
    } else {
        w matches TxWriter::Unsupported(name) && name@ == encode_utf8(fmt)
    }
}

/// The bytes a reader has not consumed yet.
pub open spec fn tx_reader_rest(rd: TxReader) -> Seq<u8> {
    match rd {
        TxReader::Csv(p) => p.parser.data@.skip(p.parser.pos as int),
        TxReader::Text(p) => p.parser.data@.skip(p.parser.pos as int),
        TxReader::Bin(p) => p.data@.skip(p.pos as int),
        TxReader::Unsupported(_) => Seq::empty(),
    }
}

/// A read call that produced a record consumed at least one byte, and the
/// record it produced can be represented by every encoding.
pub proof fn lemma_tx_read_progress(pre: TxReader, post: TxReader, tx: Transaction)
    requires
        tx_read_step(pre, post, Ok(Some(tx))),
        pre.wf(),
        post.wf(),
    ensures
        tx_reader_rest(post).len() < tx_reader_rest(pre).len(),
        tx.wf(),
{
    match pre {
        TxReader::Csv(p) => {
            if let TxReader::Csv(q) = post {
                crate::csv_format::lemma_csv_read_progress(p, q, tx);
            }
        },
        TxReader::Text(p) => {
            if let TxReader::Text(q) = post {
                crate::text_format::lemma_text_read_progress(p, q, tx);
            }
        },
        TxReader::Bin(p) => {
            if let TxReader::Bin(q) = post {
                let s = p.data@.skip(p.pos as int);
                if let crate::bin_format::BinParse::Rec(v, k) = crate::bin_format::spec_bin_parse(
                    s,
                ) {
                    assert(k >= 54);
                    assert(q.pos == p.pos + k);
                }
            }
        },
        TxReader::Unsupported(_) => {},
    }
}

} // verus!
