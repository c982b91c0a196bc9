//! One line of an edge list: two unsigned numbers separated by white space.
use vstd::prelude::*;

verus! {

/// Why a line gives no edge.
#[derive(Clone, Copy, Debug, PartialEq, Eq)]
pub enum LineError {
    /// The line does not consist of exactly two tokens.
    MalformedLine,
    /// One of the two tokens is not an unsigned number that fits in `u32`.
    NonNumericToken,
}

/// ASCII white space: space, tab, line feed, vertical tab, form feed, carriage return.
pub open spec fn is_space(b: u8) -> bool {
    b == 32 || (9 <= b && b <= 13)
}

/// The first position from `i` on that holds no white space; the length if none does.
pub open spec fn token_start(s: Seq<u8>, i: int) -> int
    decreases s.len() - i,
{
    if i < 0 || i >= s.len() {
        s.len() as int
    } else if !is_space(s[i]) {
        i
    } else {
        token_start(s, i + 1)
    }
}

/// The first position from `i` on that holds white space; the length if none does.
pub open spec fn token_end(s: Seq<u8>, i: int) -> int
    decreases s.len() - i,
{
    if i < 0 || i >= s.len() {
        s.len() as int
    } else if is_space(s[i]) {
        i
    } else {
        token_end(s, i + 1)
    }
}

/// The value of a string of decimal digits.
pub open spec fn digits_value(d: Seq<u8>) -> nat
    decreases d.len(),
{
    if d.len() == 0 {
        0
    } else {
        digits_value(d.drop_last()) * 10 + (d.last() - 48) as nat
    }
}

/// Every byte is a decimal digit.
pub open spec fn all_digits(d: Seq<u8>) -> bool {
    forall|i: int| 0 <= i < d.len() ==> 48 <= #[trigger] d[i] <= 57
}

/// The number that a token stands for: an optional `+`, then one or more
/// decimal digits, with a value of at most `u32::MAX`.
pub open spec fn token_value(t: Seq<u8>) -> Option<u32> {
    let d = if t.len() > 0 && t[0] == 43 {
        t.skip(1)
    } else {
        t
    };
    if d.len() > 0 && all_digits(d) && digits_value(d) <= u32::MAX {
        Some(digits_value(d) as u32)
    } else {
        None
    }
}

/// What a line gives: the edge, where the line is two tokens and both are
/// numbers; else the reason why not.
pub open spec fn line_value(s: Seq<u8>) -> Result<(u32, u32), LineError> {
    let a0 = token_start(s, 0);
    let a1 = token_end(s, a0);
    let b0 = token_start(s, a1);
    let b1 = token_end(s, b0);
    let c0 = token_start(s, b1);
    if a0 < s.len() && b0 < s.len() && c0 == s.len() {
        match (token_value(s.subrange(a0, a1)), token_value(s.subrange(b0, b1))) {
            (Some(a), Some(b)) => Ok((a, b)),
            _ => Err(LineError::NonNumericToken),
        }
    } else {
        Err(LineError::MalformedLine)
    }
}

fn space(b: u8) -> (r: bool)
    ensures
        r == is_space(b),
{
    b == 32 || (9 <= b && b <= 13)
}

fn find_token_start(s: &[u8], from: usize) -> (j: usize)
    requires
        from <= s.len(),
    ensures
        j == token_start(s@, from as int),
        from <= j <= s.len(),
{
    let mut j: usize = from;
    while j < s.len() && space(s[j])
        invariant
            from <= j <= s.len(),
            token_start(s@, from as int) == token_start(s@, j as int),
        decreases s.len() - j,
    {
        j = j + 1;
    }
    j
}

fn find_token_end(s: &[u8], from: usize) -> (j: usize)
    requires
        from <= s.len(),
    ensures
        j == token_end(s@, from as int),
        from <= j <= s.len(),
{
    let mut j: usize = from;
    while j < s.len() && !space(s[j])
        invariant
            from <= j <= s.len(),
            token_end(s@, from as int) == token_end(s@, j as int),
        decreases s.len() - j,
    {
        j = j + 1;
    }
    j
}

proof fn lemma_digits_grow(d: Seq<u8>, k: int)
    requires
        0 <= k <= d.len(),
        all_digits(d),
    ensures
        digits_value(d.take(k)) <= digits_value(d),
    decreases d.len(),
{
    if k < d.len() {
        assert(d.drop_last().take(k) == d.take(k));
        lemma_digits_grow(d.drop_last(), k);
        assert(48 <= d[d.len() - 1]);
    } else {
        assert(d.take(k) == d);
    }
}

/// The number that the bytes of `s` from `from` up to `to` stand for.
fn read_number(s: &[u8], from: usize, to: usize) -> (r: Option<u32>)
    requires
        from <= to <= s.len(),
    ensures
        r == token_value(s@.subrange(from as int, to as int)),
{
    let ghost t = s@.subrange(from as int, to as int);
    let mut i: usize = from;
    if i < to && s[i] == 43 {
        i = i + 1;
    }
    let first: usize = i;
    let ghost d = s@.subrange(first as int, to as int);
    proof {
        if first > from {
            assert(t[0] == 43);
            assert(t.skip(1) == d);
        } else {
            assert(t == d);
            if t.len() > 0 {
                assert(t[0] != 43);
            }
        }
    }
    if first == to {
        return None;
    }
    let mut acc: u64 = 0;
    while i < to
        invariant
            first <= i <= to <= s.len(),
            d == s@.subrange(first as int, to as int),
            t == s@.subrange(from as int, to as int),
            d.len() > 0,
            d == (if t.len() > 0 && t[0] == 43 {
                t.skip(1)
            } else {
                t
            }),
            all_digits(d.take(i - first)),
            acc == digits_value(d.take(i - first)),
            acc <= u32::MAX,
        decreases to - i,
    {
        let b: u8 = s[i];
        if b < 48 || b > 57 {
            proof {
                assert(d[i - first] == b);
            }
            return None;
        }
        let ghost shorter = d.take(i - first);
        let ghost longer = d.take(i - first + 1);
        proof {
            assert(longer.drop_last() == shorter);
            assert(longer.last() == b);
            assert forall|k: int| 0 <= k < longer.len() implies 48 <= #[trigger] longer[k]
                <= 57 by {
                if k < shorter.len() {
                    assert(shorter[k] == longer[k]);
                }
            }
        }
        let next: u64 = acc * 10 + (b - 48) as u64;
        assert(next == digits_value(longer));
        if next > 4294967295 {
            proof {
                if all_digits(d) {
                    lemma_digits_grow(d, i - first + 1);
                }
            }
            return None;
        }
        acc = next;
        i = i + 1;
    }
    proof {
        assert(d.take(to - first) == d);
    }
    Some(acc as u32)
}

/// Reads one line of an edge list. White space separates tokens and may
/// surround them; a number is decimal, with an optional `+` before it.
pub fn parse_line(line: &[u8]) -> (r: Result<(u32, u32), LineError>)
    ensures
        r == line_value(line@),
{
    let a0: usize = find_token_start(line, 0);
    let a1: usize = find_token_end(line, a0);
    let b0: usize = find_token_start(line, a1);
    let b1: usize = find_token_end(line, b0);
    let c0: usize = find_token_start(line, b1);
    if a0 < line.len() && b0 < line.len() && c0 == line.len() {
        let a: Option<u32> = read_number(line, a0, a1);
        let b: Option<u32> = read_number(line, b0, b1);
        match (a, b) {
            (Some(a), Some(b)) => Ok((a, b)),
            _ => Err(LineError::NonNumericToken),
        }
    } else {
        Err(LineError::MalformedLine)
    }
}

} // verus!
