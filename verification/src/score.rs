use vstd::prelude::*;

verus! {

/// ASCII whitespace as it occurs around a stored score: space, tab,
/// line feed or carriage return.
pub open spec fn is_ascii_ws(b: u8) -> bool {
    b == 32 || b == 9 || b == 10 || b == 13
}

/// An ASCII decimal digit.
pub open spec fn is_ascii_digit(b: u8) -> bool {
    48 <= b <= 57
}

/// The bytes with leading ASCII whitespace removed.
pub open spec fn trim_start(s: Seq<u8>) -> Seq<u8>
    decreases s.len(),
{
    if s.len() > 0 && is_ascii_ws(s[0]) {
        trim_start(s.drop_first())
    } else {
        s
    }
}

/// The bytes with trailing ASCII whitespace removed.
pub open spec fn trim_end(s: Seq<u8>) -> Seq<u8>
    decreases s.len(),
{
    if s.len() > 0 && is_ascii_ws(s.last()) {
        trim_end(s.drop_last())
    } else {
        s
    }
}

/// The bytes with whitespace removed from both ends.
pub open spec fn trimmed(s: Seq<u8>) -> Seq<u8> {
    trim_end(trim_start(s))
}

/// The value of a string of decimal digits, most significant first.
pub open spec fn digits_value(s: Seq<u8>) -> int
    decreases s.len(),
{
    if s.len() == 0 {
        0
    } else {
        digits_value(s.drop_last()) * 10 + (s.last() - 48)
    }
}

/// The stored high score that a file's bytes denote: the decimal number
/// they spell once surrounding whitespace is trimmed, or 0 when they are
/// empty, hold any non-digit, or spell a value too large for the counter —
/// a missing or corrupt file simply means no high score yet.
pub open spec fn parse_score(s: Seq<u8>) -> u32 {
    let t = trimmed(s);
    if t.len() > 0 && (forall|i: int| 0 <= i < t.len() ==> is_ascii_digit(#[trigger] t[i]))
        && digits_value(t) <= u32::MAX {
        digits_value(t) as u32
    } else {
        0
    }
}

/// Dropping a counted prefix of all-whitespace bytes is what `trim_start`
/// does, provided the byte after the prefix is not whitespace.
proof fn lemma_trim_start_subrange(s: Seq<u8>, lo: int)
    requires
        0 <= lo <= s.len(),
        forall|k: int| 0 <= k < lo ==> is_ascii_ws(#[trigger] s[k]),
        lo < s.len() ==> !is_ascii_ws(s[lo]),
    ensures
        trim_start(s) == s.subrange(lo, s.len() as int),
    decreases lo,
{
    if lo == 0 {
        assert(s.subrange(0, s.len() as int) =~= s);
    } else {
        assert(is_ascii_ws(s[0]));
        lemma_trim_start_subrange(s.drop_first(), lo - 1);
        assert(s.drop_first().subrange(lo - 1, s.drop_first().len() as int) =~= s.subrange(
            lo,
            s.len() as int,
        ));
    }
}

/// Dropping a counted suffix of all-whitespace bytes is what `trim_end`
/// does, provided the byte before the suffix is not whitespace.
proof fn lemma_trim_end_subrange(s: Seq<u8>, hi: int)
    requires
        0 <= hi <= s.len(),
        forall|k: int| hi <= k < s.len() ==> is_ascii_ws(#[trigger] s[k]),
        hi > 0 ==> !is_ascii_ws(s[hi - 1]),
    ensures
        trim_end(s) == s.subrange(0, hi),
    decreases s.len() - hi,
{
    if hi == s.len() {
        assert(s.subrange(0, s.len() as int) =~= s);
    } else {
        assert(is_ascii_ws(s.last()));
        lemma_trim_end_subrange(s.drop_last(), hi);
        assert(s.drop_last().subrange(0, hi) =~= s.subrange(0, hi));
    }
}

/// Digit strings denote non-negative values.
proof fn lemma_digits_value_nonneg(s: Seq<u8>)
    requires
        forall|i: int| 0 <= i < s.len() ==> is_ascii_digit(#[trigger] s[i]),
    ensures
        digits_value(s) >= 0,
    decreases s.len(),
{
    if s.len() > 0 {
        lemma_digits_value_nonneg(s.drop_last());
    }
}

/// A digit string denotes at least as much as any of its prefixes.
proof fn lemma_digits_value_prefix_le(s: Seq<u8>, n: int)
    requires
        0 <= n <= s.len(),
        forall|i: int| 0 <= i < s.len() ==> is_ascii_digit(#[trigger] s[i]),
    ensures
        digits_value(s.take(n)) <= digits_value(s),
    decreases s.len() - n,
{
    if n == s.len() {
        assert(s.take(n) =~= s);
    } else {
        lemma_digits_value_prefix_le(s, n + 1);
        assert(s.take(n + 1).drop_last() =~= s.take(n));
        lemma_digits_value_nonneg(s.take(n));
        assert(digits_value(s.take(n + 1)) == digits_value(s.take(n)) * 10 + (s[n] - 48));
        assert(digits_value(s.take(n)) <= digits_value(s.take(n)) * 10) by (nonlinear_arith)
            requires
                digits_value(s.take(n)) >= 0,
        ;
    }
}

/// Read a stored high score from a file's bytes: surrounding whitespace is
/// trimmed and the decimal number between is returned, with anything that
/// is not a plain in-range decimal number — including an empty or missing
/// file — counting as 0.
pub fn parse_high_score(contents: &Vec<u8>) -> (r: u32)
    ensures
        r == parse_score(contents@),
{
    let n = contents.len();
    let ghost s = contents@;
    let mut lo: usize = 0;
    while lo < n && is_ws_byte(contents[lo])
        invariant
            0 <= lo <= n,
            n == s.len(),
            s == contents@,
            forall|k: int| 0 <= k < lo ==> is_ascii_ws(#[trigger] s[k]),
        decreases n - lo,
    {
        lo = lo + 1;
    }
    let mut hi: usize = n;
    while hi > lo && is_ws_byte(contents[hi - 1])
        invariant
            lo <= hi <= n,
            n == s.len(),
            s == contents@,
            forall|k: int| 0 <= k < lo ==> is_ascii_ws(#[trigger] s[k]),
            lo < n ==> !is_ascii_ws(s[lo as int]),
            forall|k: int| hi <= k < n ==> is_ascii_ws(#[trigger] s[k]),
        decreases hi,
    {
        hi = hi - 1;
    }
    proof {
        if lo == hi {
            // Everything is whitespace: the trimmed sequence is empty.
            lemma_trim_start_subrange(s, lo as int);
            lemma_trim_end_subrange(
                s.subrange(lo as int, s.len() as int),
                0,
            );
            assert(trimmed(s) =~= s.subrange(lo as int, lo as int));
            assert(trimmed(s).len() == 0);
        } else {
            lemma_trim_start_subrange(s, lo as int);
            lemma_trim_end_subrange(
                s.subrange(lo as int, s.len() as int),
                hi - lo,
            );
            assert(trimmed(s) =~= s.subrange(lo as int, hi as int));
        }
    }
    let ghost t = trimmed(s);
    if lo == hi {
        return 0;
    }
    let mut value: u32 = 0;
    let mut i: usize = lo;
    while i < hi
        invariant
            lo <= i <= hi <= n,
            lo < hi,
            n == s.len(),
            s == contents@,
            t == trimmed(s),
            t =~= s.subrange(lo as int, hi as int),
            forall|k: int| lo <= k < i ==> is_ascii_digit(#[trigger] s[k]),
            value == digits_value(t.take(i - lo)),
            value <= u32::MAX,
        decreases hi - i,
    {
        let b = contents[i];
        if b < 48 || b > 57 {
            // A non-digit inside the trimmed region: the contents are corrupt.
            proof {
                assert(t[i - lo] == s[i as int]);
                assert(!is_ascii_digit(t[i - lo]));
            }
            return 0;
        }
        let d = (b - 48) as u32;
        proof {
            assert(t.take(i + 1 - lo).drop_last() =~= t.take(i - lo));
            assert(t.take(i + 1 - lo).last() == s[i as int]);
        }
        if value > (u32::MAX - d) / 10 {
            // The next digit would overflow the counter, so the denoted
            // value is out of range and counts as corrupt.
            proof {
                assert(digits_value(t.take(i + 1 - lo)) == value * 10 + d);
                assert(value * 10 + d > u32::MAX) by (nonlinear_arith)
                    requires
                        value > (u32::MAX - d) / 10,
                        0 <= d <= 9,
                        value <= u32::MAX,
                ;
                if forall|k: int| 0 <= k < t.len() ==> is_ascii_digit(#[trigger] t[k]) {
                    lemma_digits_value_prefix_le(t, i + 1 - lo);
                }
            }
            return 0;
        }
        proof {
            assert(value * 10 + d <= u32::MAX) by (nonlinear_arith)
                requires
                    value <= (u32::MAX - d) / 10,
                    0 <= d <= 9,
            ;
        }
        value = value * 10 + d;
        i = i + 1;
    }
    proof {
        assert(t.take(hi - lo) =~= t);
        assert forall|k: int| 0 <= k < t.len() implies is_ascii_digit(#[trigger] t[k]) by {
            assert(t[k] == s[k + lo]);
        }
        lemma_digits_value_nonneg(t);
    }
    value
}

/// ASCII whitespace, byte by byte.
fn is_ws_byte(b: u8) -> (r: bool)
    ensures
        r == is_ascii_ws(b),
{
    b == 32 || b == 9 || b == 10 || b == 13
}

} // verus!
