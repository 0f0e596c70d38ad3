//! Source text bookkeeping: the source buffer, byte ranges into it, spanned
//! values, and decimal number parsing.

use vstd::prelude::*;
use crate::error::{Error, Reason};

verus! {

/// A compilation unit's input: a display name for diagnostics and the raw
/// source bytes.
#[derive(Debug)]
pub struct Source {
    pub file: String,
    pub code: Vec<u8>,
}

impl Source {
    pub fn new(file: String, code: Vec<u8>) -> (r: Source)
        ensures
            r.file == file,
            r.code == code,
    {
        Source { file, code }
    }
}

/// A byte range `start..end` into the source text.
#[derive(Clone, Copy, Debug, PartialEq, Eq, Structural)]
pub struct Quote {
    pub start: usize,
    pub end: usize,
}

impl Quote {
    pub fn new(start: usize, end: usize) -> (r: Quote)
        ensures
            r.start == start,
            r.end == end,
    {
        Quote { start, end }
    }

    /// Whether two quotes touch: one ends exactly where the other begins.
    pub fn adjacent(&self, other: &Quote) -> (r: bool)
        ensures
            r == (self.end == other.start || self.start == other.end),
    {
        self.end == other.start || self.start == other.end
    }
}

/// A value together with the byte range it was read from.
#[derive(Clone, Copy, Debug)]
pub struct Q<T> {
    pub value: T,
    pub quote: Quote,
}

impl<T> Q<T> {
    pub fn new(value: T, start: usize, end: usize) -> (r: Q<T>)
        ensures
            r.value == value,
            r.quote.start == start,
            r.quote.end == end,
    {
        Q { value, quote: Quote::new(start, end) }
    }
}

/// An ASCII decimal digit.
pub open spec fn is_digit(c: u8) -> bool {
    48 <= c && c <= 57
}

/// Every byte of `s` is an ASCII decimal digit.
pub open spec fn all_digits(s: Seq<u8>) -> bool {
    forall|i: int| 0 <= i < s.len() ==> is_digit(#[trigger] s[i])
}

/// The numeric value of a digit run, most significant digit first.
pub open spec fn digits_value(s: Seq<u8>) -> nat
    decreases s.len(),
{
    if s.len() == 0 {
        0
    } else {
        digits_value(s.drop_last()) * 10 + (if is_digit(s.last()) {
            (s.last() - 48) as nat
        } else {
            0nat
        })
    }
}

/// Appending digits to a run that is already too large for `usize` keeps it
/// too large.
pub proof fn lemma_digits_value_grows(s: Seq<u8>)
    requires
        s.len() > 0,
    ensures
        digits_value(s) >= digits_value(s.drop_last()),
{
    assert(digits_value(s.drop_last()) * 10 >= digits_value(s.drop_last())) by (nonlinear_arith);
}

/// Reads the decimal number in `source.code[quote.start..quote.end]`.
///
/// Returns its value when the range is a pure digit run whose value fits in
/// `usize`, and an `InvalidNumber` error anchored at `quote` otherwise.
pub fn parse_number(source: &Source, quote: &Quote) -> (r: Result<usize, Error>)
    requires
        quote.start <= quote.end,
        quote.end <= source.code.len(),
    ensures
        ({
            let s = source.code@.subrange(quote.start as int, quote.end as int);
            if quote.start < quote.end && all_digits(s) && digits_value(s) <= usize::MAX {
                r == Ok::<usize, Error>(digits_value(s) as usize)
            } else {
                r == Err::<usize, Error>(Error { quote: *quote, reason: Reason::InvalidNumber })
            }
        }),
{
    let ghost s = source.code@.subrange(quote.start as int, quote.end as int);
    if quote.start == quote.end {
        return Err(Error::new(*quote, Reason::InvalidNumber));
    }
    let mut acc: usize = 0;
    let mut i: usize = quote.start;
    while i < quote.end
        invariant
            quote.start <= i <= quote.end,
            quote.end <= source.code.len(),
            s == source.code@.subrange(quote.start as int, quote.end as int),
            all_digits(source.code@.subrange(quote.start as int, i as int)),
            acc == digits_value(source.code@.subrange(quote.start as int, i as int)),
        decreases quote.end - i,
    {
        let c = source.code[i];
        let ghost pre = source.code@.subrange(quote.start as int, i as int);
        let ghost cur = source.code@.subrange(quote.start as int, i + 1int);
        proof {
            assert(cur.drop_last() =~= pre);
            assert(cur.last() == c);
        }
        if !(48 <= c && c <= 57) {
            return Err(Error::new(*quote, Reason::InvalidNumber));
        }
        let d = (c - 48) as usize;
        if acc > (usize::MAX - d) / 10 {
            // The run no longer fits in usize; nor does any extension of it.
            proof {
                assert(acc * 10 + d > usize::MAX) by (nonlinear_arith)
                    requires acc > (usize::MAX - d) / 10 && d <= 9;
                lemma_digits_too_big(source.code@, quote.start as int, i + 1int, quote.end as int);
            }
            return Err(Error::new(*quote, Reason::InvalidNumber));
        }
        proof {
            assert(acc * 10 + d <= usize::MAX) by (nonlinear_arith)
                requires acc <= (usize::MAX - d) / 10 && d <= 9;
        }
        acc = acc * 10 + d;
        i = i + 1;
    }
    proof {
        assert(source.code@.subrange(quote.start as int, quote.end as int) =~= s);
    }
    Ok(acc)
}

/// If a prefix of a digit run already exceeds `usize::MAX`, the whole run
/// does.
proof fn lemma_digits_too_big(code: Seq<u8>, start: int, mid: int, end: int)
    requires
        0 <= start <= mid <= end <= code.len(),
        digits_value(code.subrange(start, mid)) > usize::MAX,
    ensures
        digits_value(code.subrange(start, end)) > usize::MAX,
    decreases end - mid,
{
    if mid < end {
        let cur = code.subrange(start, mid + 1);
        assert(cur.drop_last() =~= code.subrange(start, mid));
        assert(digits_value(cur) >= digits_value(cur.drop_last())) by {
            lemma_digits_value_grows(cur);
        }
        lemma_digits_too_big(code, start, mid + 1, end);
    } else {
        assert(code.subrange(start, mid) =~= code.subrange(start, end));
    }
}

} // verus!
