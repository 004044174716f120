use vstd::prelude::*;
use crate::error::ParsError;
use crate::transaction::Transaction;
use crate::transaction::tx_equal;
use crate::tx_format::TxReader;
use crate::tx_format::tx_read_step;
use crate::tx_format::tx_reader_init;
use crate::tx_format::tx_reader_rest;
use crate::tx_format::lemma_tx_read_progress;

verus! {

/// What comparing two streams record by record found.
pub enum CompareOutcome {
    /// Same record count and every pair of records equal.
    Identical,
    /// Same record count, but the records at these positions differ.
    RecordsDiffer(Vec<usize>),
    /// The streams hold different numbers of records.
    LengthMismatch,
}

/// Both readers, starting from `l0` and `r0`, yield the paired records in
/// lockstep and are left as `l1` and `r1`.
pub open spec fn lockstep_to(
    l0: TxReader,
    r0: TxReader,
    pairs: Seq<(Transaction, Transaction)>,
    l1: TxReader,
    r1: TxReader,
) -> bool
    decreases pairs.len(),
{
    if pairs.len() == 0 {
        l1 == l0 && r1 == r0
    } else {
        exists|lm: TxReader, rm: TxReader|
            #![trigger tx_read_step(l0, lm, Ok::<Option<Transaction>, ParsError>(Some(pairs[0].0))), tx_read_step(r0, rm, Ok::<Option<Transaction>, ParsError>(Some(pairs[0].1)))]
            {
                &&& tx_read_step(l0, lm, Ok::<Option<Transaction>, ParsError>(Some(pairs[0].0)))
                &&& tx_read_step(r0, rm, Ok::<Option<Transaction>, ParsError>(Some(pairs[0].1)))
                &&& lockstep_to(lm, rm, pairs.drop_first(), l1, r1)
            }
    }
}

/// Extending a lockstep run by one more pair.
pub proof fn lemma_lockstep_snoc(
    l0: TxReader,
    r0: TxReader,
    pairs: Seq<(Transaction, Transaction)>,
    l1: TxReader,
    r1: TxReader,
    p: (Transaction, Transaction),
    l2: TxReader,
    r2: TxReader,
)
    requires
        lockstep_to(l0, r0, pairs, l1, r1),
        tx_read_step(l1, l2, Ok::<Option<Transaction>, ParsError>(Some(p.0))),
        tx_read_step(r1, r2, Ok::<Option<Transaction>, ParsError>(Some(p.1))),
    ensures
        lockstep_to(l0, r0, pairs.push(p), l2, r2),
    decreases pairs.len(),
{
    if pairs.len() == 0 {
        assert(pairs.push(p)[0] == p);
        assert(pairs.push(p).drop_first() =~= pairs);
        assert(lockstep_to(l2, r2, pairs.push(p).drop_first(), l2, r2));
    } else {
        let (lm, rm) = choose|lm: TxReader, rm: TxReader|
            #![trigger tx_read_step(l0, lm, Ok::<Option<Transaction>, ParsError>(Some(pairs[0].0))), tx_read_step(r0, rm, Ok::<Option<Transaction>, ParsError>(Some(pairs[0].1)))]
            {
                &&& tx_read_step(l0, lm, Ok::<Option<Transaction>, ParsError>(Some(pairs[0].0)))
                &&& tx_read_step(r0, rm, Ok::<Option<Transaction>, ParsError>(Some(pairs[0].1)))
                &&& lockstep_to(lm, rm, pairs.drop_first(), l1, r1)
            };
        lemma_lockstep_snoc(lm, rm, pairs.drop_first(), l1, r1, p, l2, r2);
        assert(pairs.push(p)[0] == pairs[0]);
        assert(pairs.push(p).drop_first() =~= pairs.drop_first().push(p));
    }
}

/// The positions whose paired records differ.
pub open spec fn spec_mismatch_indices(pairs: Seq<(Transaction, Transaction)>) -> Seq<int>
    decreases pairs.len(),
{
    if pairs.len() == 0 {
        Seq::empty()
    } else {
        spec_mismatch_indices(pairs.drop_last()) + (if !tx_equal(
            pairs.last().0,
            pairs.last().1,
        ) {
            seq![pairs.len() - 1]
        } else {
            Seq::empty()
        })
    }
}

/// Both streams end cleanly right after the compared pairs.
pub open spec fn spec_both_end(l1: TxReader, r1: TxReader) -> bool {
    exists|l2: TxReader, r2: TxReader|
        #![trigger tx_read_step(l1, l2, Ok::<Option<Transaction>, ParsError>(None)), tx_read_step(r1, r2, Ok::<Option<Transaction>, ParsError>(None))]
        {
            &&& tx_read_step(l1, l2, Ok::<Option<Transaction>, ParsError>(None))
            &&& tx_read_step(r1, r2, Ok::<Option<Transaction>, ParsError>(None))
        }
}

/// Exactly one stream ends right after the compared pairs while the other
/// still yields a record.
pub open spec fn spec_one_ends(l1: TxReader, r1: TxReader) -> bool {
    exists|l2: TxReader, r2: TxReader, a: Option<Transaction>, b: Option<Transaction>|
        #![trigger tx_read_step(l1, l2, Ok::<Option<Transaction>, ParsError>(a)), tx_read_step(r1, r2, Ok::<Option<Transaction>, ParsError>(b))]
        {
            &&& tx_read_step(l1, l2, Ok::<Option<Transaction>, ParsError>(a))
            &&& tx_read_step(r1, r2, Ok::<Option<Transaction>, ParsError>(b))
            &&& (a is Some) != (b is Some)
        }
}

/// One of the two reads right after the compared pairs fails with the
/// given error.
pub open spec fn spec_compare_fails_next(l1: TxReader, r1: TxReader, e: ParsError) -> bool {
    ||| (exists|l2: TxReader|
        #[trigger] tx_read_step(l1, l2, Err::<Option<Transaction>, ParsError>(e)))
    ||| (exists|l2: TxReader, r2: TxReader, a: Option<Transaction>|
        #![trigger tx_read_step(l1, l2, Ok::<Option<Transaction>, ParsError>(a)), tx_read_step(r1, r2, Err::<Option<Transaction>, ParsError>(e))]
        {
            &&& tx_read_step(l1, l2, Ok::<Option<Transaction>, ParsError>(a))
            &&& tx_read_step(r1, r2, Err::<Option<Transaction>, ParsError>(e))
        })
}

/// What a finished comparison claims of the two input streams.
pub open spec fn spec_compared(
    lhs: Seq<u8>,
    lhs_fmt: Seq<char>,
    rhs: Seq<u8>,
    rhs_fmt: Seq<char>,
    r: Result<CompareOutcome, ParsError>,
) -> bool {
    exists|
        l0: TxReader,
        r0: TxReader,
        pairs: Seq<(Transaction, Transaction)>,
        l1: TxReader,
        r1: TxReader,
    |
        #![trigger lockstep_to(l0, r0, pairs, l1, r1)]
        {
            &&& tx_reader_init(l0, lhs, lhs_fmt)
            &&& tx_reader_init(r0, rhs, rhs_fmt)
            &&& lockstep_to(l0, r0, pairs, l1, r1)
            &&& match r {
                Ok(CompareOutcome::Identical) => spec_both_end(l1, r1)
                    && spec_mismatch_indices(pairs).len() == 0,
                Ok(CompareOutcome::RecordsDiffer(idxs)) => spec_both_end(l1, r1)
                    && idxs@.map_values(|v: usize| v as int) == spec_mismatch_indices(pairs)
                    && idxs@.len() > 0,
                Ok(CompareOutcome::LengthMismatch) => spec_one_ends(l1, r1),
                Err(e) => spec_compare_fails_next(l1, r1, e),
            }
        }
}

/// Pulls one record from each stream in lockstep. Streams with the same
/// record count are compared pair by pair, and every differing position is
/// reported; streams with different record counts are reported as a length
/// mismatch instead of any per-record comparison. The first read error
/// aborts the comparison.
pub fn compare(lhs: Vec<u8>, lhs_format: &str, rhs: Vec<u8>, rhs_format: &str) -> (r: Result<
    CompareOutcome,
    ParsError,
>)
    ensures
        spec_compared(lhs@, lhs_format@, rhs@, rhs_format@, r),
{
    let ghost lhs_snapshot = lhs@;
    let ghost rhs_snapshot = rhs@;
    // materialize the machine bound on the stream length, which caps how
    // many records the position counter can ever reach
    let _lhs_total: usize = lhs.len();
    proof {
        assert(lhs_snapshot.len() == _lhs_total);
    }
    let mut lhs_reader = match TxReader::new(lhs, lhs_format) {
        Ok(rd) => rd,
        Err(e) => {
            // the constructors never fail
            proof {
                assert(false);
            }
            return Err(e);
        },
    };
    let mut rhs_reader = match TxReader::new(rhs, rhs_format) {
        Ok(rd) => rd,
        Err(e) => {
            // the constructors never fail
            proof {
                assert(false);
            }
            return Err(e);
        },
    };
    let ghost l0 = lhs_reader;
    let ghost r0 = rhs_reader;
    let ghost mut pairs: Seq<(Transaction, Transaction)> = Seq::empty();
    let mut mismatches: Vec<usize> = Vec::new();
    let mut idx: usize = 0;
    loop
        invariant
            lhs_reader.wf(),
            rhs_reader.wf(),
            tx_reader_init(l0, lhs_snapshot, lhs_format@),
            tx_reader_init(r0, rhs_snapshot, rhs_format@),
            lockstep_to(l0, r0, pairs, lhs_reader, rhs_reader),
            idx == pairs.len(),
            lhs_snapshot.len() <= usize::MAX,
            idx + tx_reader_rest(lhs_reader).len() <= lhs_snapshot.len(),
            mismatches@.map_values(|v: usize| v as int) == spec_mismatch_indices(pairs),
        decreases tx_reader_rest(lhs_reader).len(),
    {
        let ghost pre_l = lhs_reader;
        let ghost pre_r = rhs_reader;
        let la = match lhs_reader.read_transaction() {
            Ok(v) => v,
            Err(e) => {
                proof {
                    assert(tx_read_step(pre_l, lhs_reader, Err::<
                        Option<Transaction>,
                        ParsError,
                    >(e)));
                    assert(spec_compare_fails_next(pre_l, pre_r, e));
                }
                return Err(e);
            },
        };
        let rb = match rhs_reader.read_transaction() {
            Ok(v) => v,
            Err(e) => {
                proof {
                    assert(tx_read_step(pre_l, lhs_reader, Ok::<
                        Option<Transaction>,
                        ParsError,
                    >(la)));
                    assert(tx_read_step(pre_r, rhs_reader, Err::<
                        Option<Transaction>,
                        ParsError,
                    >(e)));
                    assert(spec_compare_fails_next(pre_l, pre_r, e));
                }
                return Err(e);
            },
        };
        match (la, rb) {
            (None, None) => {
                proof {
                    assert(tx_read_step(pre_l, lhs_reader, Ok::<
                        Option<Transaction>,
                        ParsError,
                    >(None)));
                    assert(tx_read_step(pre_r, rhs_reader, Ok::<
                        Option<Transaction>,
                        ParsError,
                    >(None)));
                    assert(spec_both_end(pre_l, pre_r));
                }
                if mismatches.len() == 0 {
                    return Ok(CompareOutcome::Identical);
                } else {
                    return Ok(CompareOutcome::RecordsDiffer(mismatches));
                }
            },
            (Some(ltx), Some(rtx)) => {
                proof {
                    lemma_tx_read_progress(pre_l, lhs_reader, ltx);
                    lemma_tx_read_progress(pre_r, rhs_reader, rtx);
                }
                let equal = crate::transaction::tx_eq(&ltx, &rtx);
                let ghost p = (ltx, rtx);
                if !equal {
                    mismatches.push(idx);
                }
                proof {
                    lemma_lockstep_snoc(
                        l0,
                        r0,
                        pairs,
                        pre_l,
                        pre_r,
                        p,
                        lhs_reader,
                        rhs_reader,
                    );
                    let pairs2 = pairs.push(p);
                    assert(pairs2.drop_last() =~= pairs);
                    assert(pairs2.last() == p);
                    if !equal {
                        assert(mismatches@.map_values(|v: usize| v as int)
                            =~= spec_mismatch_indices(pairs2));
                    } else {
                        assert(spec_mismatch_indices(pairs2) =~= spec_mismatch_indices(pairs));
                    }
                    pairs = pairs2;
                }
                idx = idx + 1;
            },
            (la2, rb2) => {
                proof {
                    assert(tx_read_step(pre_l, lhs_reader, Ok::<
                        Option<Transaction>,
                        ParsError,
                    >(la2)));
                    assert(tx_read_step(pre_r, rhs_reader, Ok::<
                        Option<Transaction>,
                        ParsError,
                    >(rb2)));
                    assert((la2 is Some) != (rb2 is Some));
                    assert(spec_one_ends(pre_l, pre_r));
                }
                return Ok(CompareOutcome::LengthMismatch);
            },
        }
    }
}

} // verus!
