use vstd::prelude::*;
use crate::error::ParsError;
use vstd::utf8::valid_utf8;
use vstd::utf8::valid_first_scalar;
use vstd::utf8::partial_valid_utf8;
use vstd::utf8::partial_valid_utf8_extend;
use vstd::utf8::partial_valid_partial_invalid_utf8;

verus! {

/// ASCII double quote.
pub const QUOTE: u8 = 0x22;

/// ASCII comma.
pub const COMMA: u8 = 0x2c;

/// ASCII line feed.
pub const NEWLINE: u8 = 0x0a;

/// ASCII space.
pub const SPACE: u8 = 0x20;

/// ASCII backslash.
pub const BACKSLASH: u8 = 0x5c;

/// ASCII colon.
pub const COLON: u8 = 0x3a;

/// ASCII number sign, which starts a comment in the text format.
pub const HASH: u8 = 0x23;

/// Pulls one byte from an in-memory stream, advancing the position, or
/// reports clean exhaustion.
pub fn read_byte(data: &Vec<u8>, pos: &mut usize) -> (r: Result<u8, ParsError>)
    requires
        *old(pos) <= data@.len(),
    ensures
        *old(pos) < data@.len() ==> r == Ok::<u8, ParsError>(data@[*old(pos) as int])
            && *final(pos) == *old(pos) + 1,
        *old(pos) == data@.len() ==> r == Err::<u8, ParsError>(ParsError::EndOfStream)
            && *final(pos) == *old(pos),
{
    if *pos < data.len() {
        let b = data[*pos];
        *pos = *pos + 1;
        Ok(b)
    } else {
        Err(ParsError::EndOfStream)
    }
}

/// An ASCII whitespace byte, the class stripped from the ends of tokens.
pub open spec fn is_ws(b: u8) -> bool {
    b == 0x09 || b == 0x0a || b == 0x0b || b == 0x0c || b == 0x0d || b == 0x20
}

/// The sequence with leading whitespace removed.
pub open spec fn spec_trim_front(s: Seq<u8>) -> Seq<u8>
    decreases s.len(),
{
    if s.len() > 0 && is_ws(s[0]) {
        spec_trim_front(s.drop_first())
    } else {
        s
    }
}

/// The sequence with trailing whitespace removed.
pub open spec fn spec_trim_back(s: Seq<u8>) -> Seq<u8>
    decreases s.len(),
{
    if s.len() > 0 && is_ws(s[s.len() - 1]) {
        spec_trim_back(s.drop_last())
    } else {
        s
    }
}

/// The sequence with whitespace removed from both ends.
pub open spec fn spec_trim(s: Seq<u8>) -> Seq<u8> {
    spec_trim_back(spec_trim_front(s))
}

proof fn lemma_trim_front_skip(s: Seq<u8>, lo: int)
    requires
        0 <= lo <= s.len(),
        forall|j: int| 0 <= j < lo ==> is_ws(#[trigger] s[j]),
    ensures
        spec_trim_front(s) == spec_trim_front(s.subrange(lo, s.len() as int)),
    decreases lo,
{
    if lo == 0 {
        assert(s.subrange(0, s.len() as int) =~= s);
    } else {
        assert(is_ws(s[0]));
        assert(s.drop_first() =~= s.subrange(1, s.len() as int));
        let t = s.subrange(1, s.len() as int);
        assert(forall|j: int| 0 <= j < lo - 1 ==> is_ws(#[trigger] t[j]));
        lemma_trim_front_skip(t, lo - 1);
        assert(t.subrange(lo - 1, t.len() as int) =~= s.subrange(lo, s.len() as int));
    }
}

proof fn lemma_trim_back_skip(s: Seq<u8>, hi: int)
    requires
        0 <= hi <= s.len(),
        forall|j: int| hi <= j < s.len() ==> is_ws(#[trigger] s[j]),
    ensures
        spec_trim_back(s) == spec_trim_back(s.subrange(0, hi)),
    decreases s.len() - hi,
{
    if hi == s.len() {
        assert(s.subrange(0, s.len() as int) =~= s);
    } else {
        assert(is_ws(s[s.len() - 1]));
        assert(s.drop_last() =~= s.subrange(0, s.len() - 1));
        let t = s.subrange(0, s.len() - 1);
        assert(forall|j: int| hi <= j < t.len() ==> is_ws(#[trigger] t[j]));
        lemma_trim_back_skip(t, hi);
        assert(t.subrange(0, hi) =~= s.subrange(0, hi));
    }
}

/// Copies the slice of `v` between whitespace-free bounds, yielding the
/// trimmed token.
pub fn trim_bytes(v: &Vec<u8>) -> (r: Vec<u8>)
    ensures
        r@ == spec_trim(v@),
{
    let n = v.len();
    let mut lo: usize = 0;
    while lo < n && is_ws_byte(v[lo])
        invariant
            0 <= lo <= n == v@.len(),
            forall|j: int| 0 <= j < lo ==> is_ws(#[trigger] v@[j]),
        decreases n - lo,
    {
        lo = lo + 1;
    }
    let mut hi: usize = n;
    while hi > lo && is_ws_byte(v[hi - 1])
        invariant
            lo <= hi <= n == v@.len(),
            forall|j: int| 0 <= j < lo ==> is_ws(#[trigger] v@[j]),
            forall|j: int| hi <= j < n ==> is_ws(#[trigger] v@[j]),
        decreases hi,
    {
        hi = hi - 1;
    }
    proof {
        lemma_trim_front_skip(v@, lo as int);
        let t = v@.subrange(lo as int, n as int);
        if hi == lo {
            // everything from lo on is whitespace, so the front-trimmed
            // sequence is all whitespace and trims to empty
            lemma_trim_back_skip(t, 0);
            assert(t.subrange(0, 0) =~= Seq::<u8>::empty());
        } else {
            assert(!is_ws(v@[lo as int]));
            assert(forall|j: int| hi - lo <= j < t.len() ==> is_ws(#[trigger] t[j]));
            lemma_trim_back_skip(t, hi - lo);
            let u = t.subrange(0, hi - lo);
            assert(u =~= v@.subrange(lo as int, hi as int));
            assert(!is_ws(u[u.len() - 1]));
            assert(spec_trim_back(u) == u);
        }
    }
    let mut r: Vec<u8> = Vec::new();
    let mut j: usize = lo;
    while j < hi
        invariant
            lo <= j <= hi <= v@.len(),
            r@ =~= v@.subrange(lo as int, j as int),
        decreases hi - j,
    {
        r.push(v[j]);
        proof {
            assert(r@ =~= v@.subrange(lo as int, j + 1 as int));
        }
        j = j + 1;
    }
    proof {
        if hi == lo {
            assert(r@ =~= Seq::<u8>::empty());
        }
    }
    r
}

/// Executable form of the whitespace class.
pub fn is_ws_byte(b: u8) -> (r: bool)
    ensures
        r == is_ws(b),
{
    b == 0x09 || b == 0x0a || b == 0x0b || b == 0x0c || b == 0x0d || b == 0x20
}

/// The value with one pair of wrapping quotes stripped, when both are
/// present; otherwise the value unchanged.
pub open spec fn spec_remove_quotes(s: Seq<u8>) -> Seq<u8> {
    if s.len() >= 2 && s[0] == QUOTE && s[s.len() - 1] == QUOTE {
        s.subrange(1, s.len() - 1)
    } else {
        s
    }
}

/// True when the value is wrapped in a pair of quotes, one leading and one
/// trailing.
pub open spec fn spec_quoted(s: Seq<u8>) -> bool {
    s.len() >= 2 && s[0] == QUOTE && s[s.len() - 1] == QUOTE
}

/// Strips exactly one leading and one trailing quote when both are present.
pub fn remove_quotes(input: &Vec<u8>) -> (r: Vec<u8>)
    ensures
        r@ == spec_remove_quotes(input@),
{
    let n = input.len();
    if n >= 2 && input[0] == QUOTE && input[n - 1] == QUOTE {
        let mut r: Vec<u8> = Vec::new();
        let mut j: usize = 1;
        while j < n - 1
            invariant
                1 <= j <= n - 1,
                n == input@.len(),
                r@ =~= input@.subrange(1, j as int),
            decreases n - j,
        {
            r.push(input[j]);
            proof {
                assert(r@ =~= input@.subrange(1, j + 1 as int));
            }
            j = j + 1;
        }
        r
    } else {
        let mut r: Vec<u8> = Vec::new();
        let mut j: usize = 0;
        while j < n
            invariant
                0 <= j <= n == input@.len(),
                r@ =~= input@.subrange(0, j as int),
            decreases n - j,
        {
            r.push(input[j]);
            proof {
                assert(r@ =~= input@.subrange(0, j + 1 as int));
            }
            j = j + 1;
        }
        proof {
            assert(input@.subrange(0, n as int) =~= input@);
        }
        r
    }
}

/// Byte-wise equality of two slices.
pub fn bytes_eq(a: &[u8], b: &[u8]) -> (r: bool)
    ensures
        r == (a@ == b@),
{
    if a.len() != b.len() {
        proof {
            assert(a@.len() != b@.len());
        }
        return false;
    }
    let n = a.len();
    let mut j: usize = 0;
    while j < n
        invariant
            0 <= j <= n,
            n == a@.len() == b@.len(),
            forall|k: int| 0 <= k < j ==> a@[k] == b@[k],
        decreases n - j,
    {
        if a[j] != b[j] {
            return false;
        }
        j = j + 1;
    }
    proof {
        assert(a@ =~= b@);
    }
    true
}

proof fn lemma_utf8_fail(s: Seq<u8>, i: int)
    requires
        partial_valid_utf8(s, i),
        0 <= i < s.len(),
        !valid_first_scalar(s.subrange(i, s.len() as int)),
    ensures
        !valid_utf8(s),
{
    let rest = s.subrange(i, s.len() as int);
    assert(rest.len() > 0);
    assert(!valid_utf8(rest));
    partial_valid_partial_invalid_utf8(s, i);
}

/// Checks that a byte sequence is a well-formed UTF-8 encoding: correctly
/// shaped leading and continuation bytes, no overlong encodings, no
/// surrogates.
pub fn check_utf8(v: &[u8]) -> (r: bool)
    ensures
        r == valid_utf8(v@),
{
    let n = v.len();
    let mut i: usize = 0;
    while i < n
        invariant
            0 <= i <= n == v@.len(),
            partial_valid_utf8(v@, i as int),
        decreases n - i,
    {
        let ghost rest = v@.subrange(i as int, n as int);
        let b0 = v[i];
        if b0 < 0x80 {
            proof {
                assert(valid_first_scalar(rest));
                partial_valid_utf8_extend(v@, i as int);
            }
            i = i + 1;
        } else if 0xc0 <= b0 && b0 <= 0xdf {
            if i + 1 >= n || !is_continuation(v[i + 1]) {
                proof {
                    lemma_utf8_fail(v@, i as int);
                }
                return false;
            }
            let b1 = v[i + 1];
            let cp: u32 = (((b0 & 0x1f) as u32) << 6u32) | ((b1 & 0x3f) as u32);
            if cp < 0x80 {
                proof {
                    lemma_utf8_fail(v@, i as int);
                }
                return false;
            }
            proof {
                assert(cp < 0xd800) by (bit_vector)
                    requires
                        cp == (((b0 & 0x1f) as u32) << 6u32) | ((b1 & 0x3f) as u32),
                ;
                assert(valid_first_scalar(rest));
                partial_valid_utf8_extend(v@, i as int);
            }
            i = i + 2;
        } else if 0xe0 <= b0 && b0 <= 0xef {
            if n - i < 3 || !is_continuation(v[i + 1]) || !is_continuation(v[i + 2]) {
                proof {
                    lemma_utf8_fail(v@, i as int);
                }
                return false;
            }
            let b1 = v[i + 1];
            let b2 = v[i + 2];
            let cp: u32 = (((b0 & 0x0f) as u32) << 12u32) | (((b1 & 0x3f) as u32) << 6u32) | ((b2
                & 0x3f) as u32);
            if cp < 0x800 || (0xd800 <= cp && cp <= 0xdfff) {
                proof {
                    lemma_utf8_fail(v@, i as int);
                }
                return false;
            }
            proof {
                assert(valid_first_scalar(rest));
                partial_valid_utf8_extend(v@, i as int);
            }
            i = i + 3;
        } else if 0xf0 <= b0 && b0 <= 0xf7 {
            if n - i < 4 || !is_continuation(v[i + 1]) || !is_continuation(v[i + 2])
                || !is_continuation(v[i + 3]) {
                proof {
                    lemma_utf8_fail(v@, i as int);
                }
                return false;
            }
            let b1 = v[i + 1];
            let b2 = v[i + 2];
            let b3 = v[i + 3];
            let cp: u32 = (((b0 & 0x07) as u32) << 18u32) | (((b1 & 0x3f) as u32) << 12u32) | (((b2
                & 0x3f) as u32) << 6u32) | ((b3 & 0x3f) as u32);
            if cp < 0x10000 || cp > 0x10ffff {
                proof {
                    lemma_utf8_fail(v@, i as int);
                }
                return false;
            }
            proof {
                assert(valid_first_scalar(rest));
                partial_valid_utf8_extend(v@, i as int);
            }
            i = i + 4;
        } else {
            proof {
                lemma_utf8_fail(v@, i as int);
            }
            return false;
        }
    }
    proof {
        assert(v@.subrange(0, v@.len() as int) =~= v@);
    }
    true
}

/// Executable form of the continuation-byte class.
fn is_continuation(b: u8) -> (r: bool)
    ensures
        r == vstd::utf8::is_continuation_byte(b),
{
    0x80 <= b && b <= 0xbf
}

/// Advancing a position past a recognized prefix leaves exactly the rest.
pub proof fn lemma_skip_advance(data: Seq<u8>, pos: int, a: Seq<u8>, b: Seq<u8>)
    requires
        0 <= pos <= data.len(),
        data.skip(pos) == a + b,
    ensures
        data.skip(pos + a.len()) == b,
{
    assert(data.skip(pos).len() == data.len() - pos);
    assert forall|i: int| 0 <= i < b.len() implies data.skip(pos + a.len() as int)[i] == b[i] by {
        assert(data.skip(pos + a.len() as int)[i] == data[pos + a.len() + i]);
        assert(data.skip(pos)[a.len() + i] == data[pos + a.len() + i]);
        assert((a + b)[a.len() + i] == b[i]);
    }
    assert(data.skip(pos + a.len() as int) =~= b);
}

} // verus!
