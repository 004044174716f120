use vstd::prelude::*;
use vstd::arithmetic::div_mod::lemma_fundamental_div_mod;

verus! {

// ---------------------------------------------------------------------------
// Big-endian byte layouts
// ---------------------------------------------------------------------------

/// The four bytes of `x` in big-endian order.
pub open spec fn spec_u32_be(x: u32) -> Seq<u8> {
    seq![(x >> 24) as u8, (x >> 16) as u8, (x >> 8) as u8, x as u8]
}

/// The eight bytes of `x` in big-endian order.
pub open spec fn spec_u64_be(x: u64) -> Seq<u8> {
    seq![
        (x >> 56) as u8,
        (x >> 48) as u8,
        (x >> 40) as u8,
        (x >> 32) as u8,
        (x >> 24) as u8,
        (x >> 16) as u8,
        (x >> 8) as u8,
        x as u8,
    ]
}

/// The eight bytes of a signed value, written as its two's-complement
/// unsigned reinterpretation in big-endian order.
pub open spec fn spec_i64_be(x: i64) -> Seq<u8> {
    spec_u64_be(x as u64)
}

/// The 32-bit value denoted by four big-endian bytes.
pub open spec fn spec_u32_of_be(b: Seq<u8>) -> u32
    recommends
        b.len() == 4,
{
    ((b[0] as u32) << 24) | ((b[1] as u32) << 16) | ((b[2] as u32) << 8) | (b[3] as u32)
}

/// The 64-bit value denoted by eight big-endian bytes.
pub open spec fn spec_u64_of_be(b: Seq<u8>) -> u64
    recommends
        b.len() == 8,
{
    ((b[0] as u64) << 56) | ((b[1] as u64) << 48) | ((b[2] as u64) << 40) | ((b[3] as u64) << 32)
        | ((b[4] as u64) << 24) | ((b[5] as u64) << 16) | ((b[6] as u64) << 8) | (b[7] as u64)
}

/// The signed 64-bit value denoted by eight big-endian bytes, read as
/// two's complement.
pub open spec fn spec_i64_of_be(b: Seq<u8>) -> i64
    recommends
        b.len() == 8,
{
    spec_u64_of_be(b) as i64
}

/// Decoding the big-endian bytes of a 32-bit value returns the value.
pub proof fn lemma_u32_of_be_of(x: u32)
    ensures
        spec_u32_of_be(spec_u32_be(x)) == x,
{
    assert((((x >> 24) as u8 as u32) << 24) | (((x >> 16) as u8 as u32) << 16) | (((x
        >> 8) as u8 as u32) << 8) | (x as u8 as u32) == x) by (bit_vector);
}

/// Decoding the big-endian bytes of a 64-bit value returns the value.
pub proof fn lemma_u64_of_be_of(x: u64)
    ensures
        spec_u64_of_be(spec_u64_be(x)) == x,
{
    assert((((x >> 56) as u8 as u64) << 56) | (((x >> 48) as u8 as u64) << 48) | (((x
        >> 40) as u8 as u64) << 40) | (((x >> 32) as u8 as u64) << 32) | (((x >> 24) as u8 as u64)
        << 24) | (((x >> 16) as u8 as u64) << 16) | (((x >> 8) as u8 as u64) << 8) | (
    x as u8 as u64) == x) by (bit_vector);
}

/// Two distinct 32-bit values have distinct big-endian encodings.
pub proof fn lemma_u32_be_injective(x: u32, y: u32)
    requires
        spec_u32_be(x) == spec_u32_be(y),
    ensures
        x == y,
{
    assert((x >> 24) as u8 == (y >> 24) as u8 && (x >> 16) as u8 == (y >> 16) as u8 && (x
        >> 8) as u8 == (y >> 8) as u8 && x as u8 == y as u8 ==> x == y) by (bit_vector);
    assert(spec_u32_be(x)[0] == spec_u32_be(y)[0]);
    assert(spec_u32_be(x)[1] == spec_u32_be(y)[1]);
    assert(spec_u32_be(x)[2] == spec_u32_be(y)[2]);
    assert(spec_u32_be(x)[3] == spec_u32_be(y)[3]);
}

/// Two distinct 64-bit values have distinct big-endian encodings.
pub proof fn lemma_u64_be_injective(x: u64, y: u64)
    requires
        spec_u64_be(x) == spec_u64_be(y),
    ensures
        x == y,
{
    assert((x >> 56) as u8 == (y >> 56) as u8 && (x >> 48) as u8 == (y >> 48) as u8 && (x
        >> 40) as u8 == (y >> 40) as u8 && (x >> 32) as u8 == (y >> 32) as u8 && (x >> 24) as u8 == (
    y >> 24) as u8 && (x >> 16) as u8 == (y >> 16) as u8 && (x >> 8) as u8 == (y >> 8) as u8
        && x as u8 == y as u8 ==> x == y) by (bit_vector);
    assert(spec_u64_be(x)[0] == spec_u64_be(y)[0]);
    assert(spec_u64_be(x)[1] == spec_u64_be(y)[1]);
    assert(spec_u64_be(x)[2] == spec_u64_be(y)[2]);
    assert(spec_u64_be(x)[3] == spec_u64_be(y)[3]);
    assert(spec_u64_be(x)[4] == spec_u64_be(y)[4]);
    assert(spec_u64_be(x)[5] == spec_u64_be(y)[5]);
    assert(spec_u64_be(x)[6] == spec_u64_be(y)[6]);
    assert(spec_u64_be(x)[7] == spec_u64_be(y)[7]);
}

/// Casting a signed value through its unsigned reinterpretation and back
/// returns the value.
pub proof fn lemma_i64_cast_round_trip(x: i64)
    ensures
        (x as u64) as i64 == x,
{
    assert((x as u64) as i64 == x) by (bit_vector);
}

/// Appends the big-endian bytes of `x`.
pub fn push_u32_be(out: &mut Vec<u8>, x: u32)
    ensures
        final(out)@ == old(out)@ + spec_u32_be(x),
{
    out.push((x >> 24) as u8);
    out.push((x >> 16) as u8);
    out.push((x >> 8) as u8);
    out.push((x & 0xff) as u8);
    proof {
        assert((x & 0xff) as u8 == x as u8) by (bit_vector);
        assert(out@ =~= old(out)@ + spec_u32_be(x));
    }
}

/// Appends the big-endian bytes of `x`.
pub fn push_u64_be(out: &mut Vec<u8>, x: u64)
    ensures
        final(out)@ == old(out)@ + spec_u64_be(x),
{
    out.push((x >> 56) as u8);
    out.push((x >> 48) as u8);
    out.push((x >> 40) as u8);
    out.push((x >> 32) as u8);
    out.push((x >> 24) as u8);
    out.push((x >> 16) as u8);
    out.push((x >> 8) as u8);
    out.push((x & 0xff) as u8);
    proof {
        assert((x & 0xff) as u8 == x as u8) by (bit_vector);
        assert(out@ =~= old(out)@ + spec_u64_be(x));
    }
}

/// Rebuilds a 32-bit value from its four big-endian bytes.
pub fn u32_from_be(b0: u8, b1: u8, b2: u8, b3: u8) -> (r: u32)
    ensures
        spec_u32_be(r) == seq![b0, b1, b2, b3],
        r == spec_u32_of_be(seq![b0, b1, b2, b3]),
{
    let r: u32 = ((b0 as u32) << 24u32) | ((b1 as u32) << 16u32) | ((b2 as u32) << 8u32) | (
    b3 as u32);
    proof {
        let x = r;
        assert((x >> 24) as u8 == b0 && (x >> 16) as u8 == b1 && (x >> 8) as u8 == b2 && x as u8
            == b3) by (bit_vector)
            requires
                x == ((b0 as u32) << 24u32) | ((b1 as u32) << 16u32) | ((b2 as u32) << 8u32) | (
                b3 as u32),
        ;
        assert(spec_u32_be(r) =~= seq![b0, b1, b2, b3]);
    }
    r
}

/// Rebuilds a 64-bit value from its eight big-endian bytes.
pub fn u64_from_be(b0: u8, b1: u8, b2: u8, b3: u8, b4: u8, b5: u8, b6: u8, b7: u8) -> (r: u64)
    ensures
        spec_u64_be(r) == seq![b0, b1, b2, b3, b4, b5, b6, b7],
        r == spec_u64_of_be(seq![b0, b1, b2, b3, b4, b5, b6, b7]),
{
    let r: u64 = ((b0 as u64) << 56u64) | ((b1 as u64) << 48u64) | ((b2 as u64) << 40u64) | ((
    b3 as u64) << 32u64) | ((b4 as u64) << 24u64) | ((b5 as u64) << 16u64) | ((b6 as u64) << 8u64)
        | (b7 as u64);
    proof {
        let x = r;
        assert((x >> 56) as u8 == b0 && (x >> 48) as u8 == b1 && (x >> 40) as u8 == b2 && (x
            >> 32) as u8 == b3 && (x >> 24) as u8 == b4 && (x >> 16) as u8 == b5 && (x >> 8) as u8
            == b6 && x as u8 == b7) by (bit_vector)
            requires
                x == ((b0 as u64) << 56u64) | ((b1 as u64) << 48u64) | ((b2 as u64) << 40u64) | ((
                b3 as u64) << 32u64) | ((b4 as u64) << 24u64) | ((b5 as u64) << 16u64) | ((
                b6 as u64) << 8u64) | (b7 as u64),
        ;
        assert(spec_u64_be(r) =~= seq![b0, b1, b2, b3, b4, b5, b6, b7]);
    }
    r
}

// ---------------------------------------------------------------------------
// Decimal digit strings
// ---------------------------------------------------------------------------

/// An ASCII decimal digit.
pub open spec fn is_digit(b: u8) -> bool {
    0x30 <= b <= 0x39
}

/// Every byte of the sequence is a decimal digit.
pub open spec fn all_digits(s: Seq<u8>) -> bool {
    forall|i: int| 0 <= i < s.len() ==> is_digit(#[trigger] s[i])
}

/// The canonical decimal digit string of a non-negative number: no sign, no
/// leading zeros, a single `0` for zero.
pub open spec fn spec_dec_digits(n: nat) -> Seq<u8>
    decreases n,
{
    if n < 10 {
        seq![(0x30 + n) as u8]
    } else {
        spec_dec_digits(n / 10) + seq![(0x30 + n % 10) as u8]
    }
}

/// The canonical decimal rendering of a signed number: a leading minus sign
/// for negative values, then the digit string of the magnitude.
pub open spec fn spec_i64_dec(x: i64) -> Seq<u8> {
    if x < 0 {
        seq![0x2du8] + spec_dec_digits((-(x as int)) as nat)
    } else {
        spec_dec_digits(x as nat)
    }
}

/// The number denoted by a digit string, most significant digit first.
pub open spec fn digits_val(s: Seq<u8>) -> int
    decreases s.len(),
{
    if s.len() == 0 {
        0
    } else {
        digits_val(s.drop_last()) * 10 + (s[s.len() - 1] - 0x30)
    }
}

/// The unsigned 64-bit number a token denotes: an optional leading plus
/// sign, then only digits, with the value within range. Mirrors how the
/// standard decimal parser treats unsigned fields.
pub open spec fn spec_parse_u64(s: Seq<u8>) -> Option<u64> {
    let t = if s.len() > 0 && s[0] == 0x2b {
        s.drop_first()
    } else {
        s
    };
    if t.len() > 0 && all_digits(t) && digits_val(t) <= u64::MAX {
        Some(digits_val(t) as u64)
    } else {
        None
    }
}

/// The signed 64-bit number a token denotes: an optional leading plus or
/// minus sign, then only digits, with the value within range.
pub open spec fn spec_parse_i64(s: Seq<u8>) -> Option<i64> {
    if s.len() > 0 && s[0] == 0x2d {
        let t = s.drop_first();
        if t.len() > 0 && all_digits(t) && -digits_val(t) >= i64::MIN {
            Some((-digits_val(t)) as i64)
        } else {
            None
        }
    } else {
        let t = if s.len() > 0 && s[0] == 0x2b {
            s.drop_first()
        } else {
            s
        };
        if t.len() > 0 && all_digits(t) && digits_val(t) <= i64::MAX {
            Some(digits_val(t) as i64)
        } else {
            None
        }
    }
}

/// A digit string denotes a non-negative number.
pub proof fn lemma_digits_val_nonneg(s: Seq<u8>)
    requires
        all_digits(s),
    ensures
        digits_val(s) >= 0,
    decreases s.len(),
{
    if s.len() > 0 {
        assert(all_digits(s.drop_last())) by {
            assert(forall|i: int|
                0 <= i < s.len() - 1 ==> s.drop_last()[i] == #[trigger] s[i]);
        }
        lemma_digits_val_nonneg(s.drop_last());
    }
}

/// Extending a digit string can only grow the number it denotes.
pub proof fn lemma_digits_val_prefix(s: Seq<u8>, k: int)
    requires
        all_digits(s),
        0 <= k <= s.len(),
    ensures
        digits_val(s.subrange(0, k)) <= digits_val(s),
    decreases s.len() - k,
{
    if k == s.len() {
        assert(s.subrange(0, k) =~= s);
    } else {
        let t = s.subrange(0, k + 1);
        assert(all_digits(t));
        assert(t.drop_last() =~= s.subrange(0, k));
        lemma_digits_val_nonneg(s.subrange(0, k));
        assert(digits_val(t) == digits_val(s.subrange(0, k)) * 10 + (t[k] - 0x30));
        assert(digits_val(s.subrange(0, k)) * 10 >= digits_val(s.subrange(0, k)));
        lemma_digits_val_prefix(s, k + 1);
    }
}

/// Appends the canonical decimal digits of `x`.
pub fn push_u64_dec(out: &mut Vec<u8>, x: u64)
    ensures
        final(out)@ == old(out)@ + spec_dec_digits(x as nat),
{
    let mut digits: Vec<u8> = Vec::new();
    let mut cur: u64 = x;
    while cur >= 10
        invariant
            spec_dec_digits(x as nat) == spec_dec_digits(cur as nat) + digits@,
        decreases cur,
    {
        let d: u8 = (cur % 10) as u8 + 0x30;
        let ghost pre = digits@;
        digits.insert(0, d);
        proof {
            assert(digits@ =~= seq![d] + pre);
            assert(spec_dec_digits(cur as nat) == spec_dec_digits((cur as nat) / 10) + seq![
                (0x30 + (cur as nat) % 10) as u8,
            ]);
            assert((cur as nat) / 10 == (cur / 10) as nat);
            assert((0x30 + (cur as nat) % 10) as u8 == d);
            assert(spec_dec_digits((cur / 10) as nat) + (seq![d] + pre) =~= (spec_dec_digits(
                (cur / 10) as nat,
            ) + seq![d]) + pre);
        }
        cur = cur / 10;
    }
    let d: u8 = cur as u8 + 0x30;
    let ghost pre = digits@;
    digits.insert(0, d);
    proof {
        assert(digits@ =~= seq![d] + pre);
        assert(spec_dec_digits(cur as nat) =~= seq![d]);
        assert(digits@ =~= spec_dec_digits(x as nat));
    }
    let n = digits.len();
    let mut j: usize = 0;
    while j < n
        invariant
            0 <= j <= n == digits@.len(),
            out@ =~= old(out)@ + digits@.subrange(0, j as int),
        decreases n - j,
    {
        out.push(digits[j]);
        proof {
            assert(old(out)@ + digits@.subrange(0, j + 1 as int) =~= (old(out)@ + digits@.subrange(
                0,
                j as int,
            )).push(digits@[j as int]));
        }
        j = j + 1;
    }
    proof {
        assert(digits@.subrange(0, n as int) =~= digits@);
    }
}

/// Appends the canonical decimal rendering of a signed value.
pub fn push_i64_dec(out: &mut Vec<u8>, x: i64)
    ensures
        final(out)@ == old(out)@ + spec_i64_dec(x),
{
    if x >= 0 {
        push_u64_dec(out, x as u64);
    } else {
        out.push(0x2d);
        let mag: u64 = if x == i64::MIN {
            9223372036854775808u64
        } else {
            (-x) as u64
        };
        proof {
            assert(mag as int == -(x as int));
        }
        push_u64_dec(out, mag);
        proof {
            assert(old(out)@ + (seq![0x2du8] + spec_dec_digits((-(x as int)) as nat)) =~= (old(
                out,
            )@.push(0x2du8)) + spec_dec_digits(mag as nat));
        }
    }
}

/// Parses an unsigned 64-bit decimal token.
#[verifier::loop_isolation(false)]
pub fn parse_u64(s: &Vec<u8>) -> (r: Option<u64>)
    ensures
        r == spec_parse_u64(s@),
{
    let n = s.len();
    let start: usize = if n > 0 && s[0] == 0x2b {
        1
    } else {
        0
    };
    let ghost t = if s@.len() > 0 && s@[0] == 0x2b {
        s@.drop_first()
    } else {
        s@
    };
    proof {
        assert(t =~= s@.subrange(start as int, n as int));
    }
    if start == n {
        return None;
    }
    let mut acc: u64 = 0;
    let mut j: usize = start;
    while j < n
        invariant
            start <= j <= n == s@.len(),
            start < n,
            t == s@.subrange(start as int, n as int),
            all_digits(t.subrange(0, j - start)),
            acc == digits_val(t.subrange(0, j - start)),
        decreases n - j,
    {
        let b = s[j];
        if !(0x30 <= b && b <= 0x39) {
            proof {
                assert(t[j - start] == b);
                assert(!all_digits(t));
            }
            return None;
        }
        let d: u64 = (b - 0x30) as u64;
        if acc > (u64::MAX - d) / 10 {
            proof {
                let p = t.subrange(0, j - start + 1);
                assert(all_digits(p));
                assert(p.drop_last() =~= t.subrange(0, j - start));
                assert(digits_val(p) == acc * 10 + d);
                assert(acc >= (u64::MAX - d) / 10 + 1);
                assert(acc * 10 >= ((u64::MAX - d) / 10 + 1) * 10) by (nonlinear_arith)
                    requires
                        acc >= (u64::MAX - d) / 10 + 1,
                ;
                assert(((u64::MAX - d) / 10) * 10 + 10 > u64::MAX - d) by {
                    lemma_fundamental_div_mod(u64::MAX - d, 10);
                }
                assert(digits_val(p) > u64::MAX);
                if all_digits(t) {
                    lemma_digits_val_prefix(t, j - start + 1);
                }
            }
            return None;
        }
        proof {
            assert(acc * 10 + d <= u64::MAX) by (nonlinear_arith)
                requires
                    acc <= (u64::MAX - d) / 10,
                    d <= 9,
            {
                lemma_fundamental_div_mod(u64::MAX - d, 10);
            }
        }
        acc = acc * 10 + d;
        proof {
            let p = t.subrange(0, j - start + 1);
            assert(p.drop_last() =~= t.subrange(0, j - start));
            assert(digits_val(p) == acc);
        }
        j = j + 1;
    }
    proof {
        assert(t.subrange(0, n - start) =~= t);
        lemma_digits_val_nonneg(t);
    }
    Some(acc)
}

/// Parses a signed 64-bit decimal token.
#[verifier::loop_isolation(false)]
pub fn parse_i64(s: &Vec<u8>) -> (r: Option<i64>)
    ensures
        r == spec_parse_i64(s@),
{
    let n = s.len();
    if n > 0 && s[0] == 0x2d {
        let ghost tn = s@.drop_first();
        let mut rest: Vec<u8> = Vec::new();
        let mut j: usize = 1;
        while j < n
            invariant
                1 <= j <= n == s@.len(),
                rest@ =~= s@.subrange(1, j as int),
            decreases n - j,
        {
            rest.push(s[j]);
            proof {
                assert(rest@ =~= s@.subrange(1, j + 1 as int));
            }
            j = j + 1;
        }
        proof {
            assert(rest@ =~= tn);
        }
        // reuse the unsigned parser on the magnitude; the magnitude of the
        // most negative value is one past the signed maximum
        let parsed = parse_u64(&rest);
        if rest.len() > 0 && rest[0] == 0x2b {
            // a plus sign directly after the minus sign: the unsigned
            // parser would strip it, the signed grammar rejects it
            proof {
                assert(!is_digit(tn[0]));
                assert(!all_digits(tn));
            }
            return None;
        }
        proof {
            assert(spec_parse_u64(tn) == if tn.len() > 0 && all_digits(tn) && digits_val(tn)
                <= u64::MAX {
                Some(digits_val(tn) as u64)
            } else {
                None::<u64>
            });
        }
        match parsed {
            Some(mag) => {
                proof {
                    lemma_digits_val_nonneg(tn);
                    assert(mag == digits_val(tn));
                }
                if mag <= 9223372036854775808u64 {
                    if mag == 9223372036854775808u64 {
                        Some(i64::MIN)
                    } else {
                        Some(-(mag as i64))
                    }
                } else {
                    None
                }
            },
            None => {
                proof {
                    if tn.len() > 0 && all_digits(tn) {
                        // the magnitude overflowed even the unsigned range
                        assert(digits_val(tn) > u64::MAX);
                        assert(-digits_val(tn) < i64::MIN);
                    }
                }
                None
            },
        }
    } else {
        let start: usize = if n > 0 && s[0] == 0x2b {
            1
        } else {
            0
        };
        let ghost t = if s@.len() > 0 && s@[0] == 0x2b {
            s@.drop_first()
        } else {
            s@
        };
        proof {
            assert(t =~= s@.subrange(start as int, n as int));
        }
        let mut rest: Vec<u8> = Vec::new();
        let mut j: usize = start;
        while j < n
            invariant
                start <= j <= n == s@.len(),
                rest@ =~= s@.subrange(start as int, j as int),
            decreases n - j,
        {
            rest.push(s[j]);
            proof {
                assert(rest@ =~= s@.subrange(start as int, j + 1 as int));
            }
            j = j + 1;
        }
        proof {
            assert(rest@ =~= t);
        }
        let parsed = parse_u64(&rest);
        if rest.len() > 0 && rest[0] == 0x2b {
            // a second plus sign: the unsigned parser would strip it, the
            // signed grammar rejects it
            proof {
                assert(!is_digit(t[0]));
                assert(!all_digits(t));
            }
            return None;
        }
        proof {
            assert(spec_parse_u64(t) == if t.len() > 0 && all_digits(t) && digits_val(t)
                <= u64::MAX {
                Some(digits_val(t) as u64)
            } else {
                None::<u64>
            });
        }
        match parsed {
            Some(v) => {
                proof {
                    lemma_digits_val_nonneg(t);
                    assert(v == digits_val(t));
                }
                if v <= i64::MAX as u64 {
                    Some(v as i64)
                } else {
                    None
                }
            },
            None => {
                proof {
                    if t.len() > 0 && all_digits(t) {
                        assert(digits_val(t) > u64::MAX);
                        assert(digits_val(t) > i64::MAX);
                    }
                }
                None
            },
        }
    }
}

/// Printing a number and parsing the digits back returns the number
/// (unsigned form).
pub proof fn lemma_dec_digits_all_digits(n: nat)
    ensures
        all_digits(spec_dec_digits(n)),
        spec_dec_digits(n).len() > 0,
    decreases n,
{
    if n >= 10 {
        lemma_dec_digits_all_digits(n / 10);
        let s = spec_dec_digits(n / 10) + seq![(0x30 + n % 10) as u8];
        assert(forall|i: int|
            0 <= i < s.len() - 1 ==> s[i] == #[trigger] spec_dec_digits(n / 10)[i]);
    }
}

/// The digit string of a number denotes that number.
pub proof fn lemma_dec_digits_val(n: nat)
    ensures
        digits_val(spec_dec_digits(n)) == n,
    decreases n,
{
    if n < 10 {
        let s = spec_dec_digits(n);
        assert(s.drop_last() =~= Seq::<u8>::empty());
        assert((0x30 + n) as u8 == 0x30 + n);
        assert(digits_val(s) == digits_val(s.drop_last()) * 10 + (s[0] - 0x30));
    } else {
        lemma_dec_digits_val(n / 10);
        let s = spec_dec_digits(n);
        assert(s.drop_last() =~= spec_dec_digits(n / 10));
        assert(n % 10 < 10);
        assert((0x30 + n % 10) as u8 == 0x30 + n % 10);
        assert(s[s.len() - 1] == (0x30 + n % 10) as u8);
        lemma_fundamental_div_mod(n as int, 10);
    }
}

/// Round trip for unsigned decimal rendering.
pub proof fn lemma_parse_u64_of_dec(x: u64)
    ensures
        spec_parse_u64(spec_dec_digits(x as nat)) == Some(x),
{
    lemma_dec_digits_all_digits(x as nat);
    lemma_dec_digits_val(x as nat);
    let s = spec_dec_digits(x as nat);
    assert(is_digit(s[0]));
    assert(s[0] != 0x2b);
}

/// Round trip for signed decimal rendering.
pub proof fn lemma_parse_i64_of_dec(x: i64)
    ensures
        spec_parse_i64(spec_i64_dec(x)) == Some(x),
{
    if x >= 0 {
        lemma_dec_digits_all_digits(x as nat);
        lemma_dec_digits_val(x as nat);
        let s = spec_dec_digits(x as nat);
        assert(is_digit(s[0]));
        assert(s[0] != 0x2d && s[0] != 0x2b);
    } else {
        let m = (-(x as int)) as nat;
        lemma_dec_digits_all_digits(m);
        lemma_dec_digits_val(m);
        let s = spec_i64_dec(x);
        assert(s[0] == 0x2d);
        assert(s.drop_first() =~= spec_dec_digits(m));
    }
}

} // verus!
