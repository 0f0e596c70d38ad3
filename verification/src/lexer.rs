//! Scans raw source bytes into spanned [`Symbol`]s, skipping whitespace and
//! comments.
//!
//! The whole lexer is specified by [`lex_spec`]: reading one symbol at byte
//! position `i` yields exactly the token (or lexical error) that `lex_spec`
//! assigns to `(source, i)`, and leaves the cursor on that result's end.

use vstd::prelude::*;
use std::rc::Rc;

use crate::error::{Error, Reason};
use crate::symbol::{keyword, keyword_spec, Symbol};
use crate::util::{all_digits, digits_value, is_digit, parse_number, Q, Quote, Source};

verus! {

/// ASCII whitespace: space, tab, line feed, form feed, carriage return.
pub open spec fn is_ws(c: u8) -> bool {
    c == 32 || c == 9 || c == 10 || c == 12 || c == 13
}

/// A byte that may start an identifier: a letter or an underscore.
pub open spec fn is_ident_start(c: u8) -> bool {
    c == 95 || (97 <= c && c <= 122) || (65 <= c && c <= 90)
}

/// A byte that may continue an identifier.
pub open spec fn is_ident_char(c: u8) -> bool {
    is_ident_start(c) || is_digit(c)
}

/// The position one past the current comment line: just after the next line
/// break, or the end of the input.
pub open spec fn line_end(s: Seq<u8>, i: nat) -> nat
    decreases s.len() - i,
{
    if i >= s.len() {
        i
    } else if s[i as int] == 10 || s[i as int] == 13 {
        (i + 1) as nat
    } else {
        line_end(s, (i + 1) as nat)
    }
}

pub proof fn lemma_line_end_bounds(s: Seq<u8>, i: nat)
    requires
        i <= s.len(),
    ensures
        i <= line_end(s, i) <= s.len(),
    decreases s.len() - i,
{
    if i < s.len() && !(s[i as int] == 10 || s[i as int] == 13) {
        lemma_line_end_bounds(s, (i + 1) as nat);
    }
}

/// The first byte position at or after `i` that holds neither whitespace nor
/// a `#`- or `//`-comment.
pub open spec fn skip_spec(s: Seq<u8>, i: nat) -> nat
    decreases s.len() - i,
        via skip_spec_dec
{
    if i >= s.len() {
        i
    } else if is_ws(s[i as int]) {
        skip_spec(s, (i + 1) as nat)
    } else if s[i as int] == 35 {
        skip_spec(s, line_end(s, (i + 1) as nat))
    } else if s[i as int] == 47 && i + 1 < s.len() && s[i + 1 as int] == 47 {
        skip_spec(s, line_end(s, (i + 1) as nat))
    } else {
        i
    }
}

#[via_fn]
proof fn skip_spec_dec(s: Seq<u8>, i: nat) {
    if i < s.len() {
        lemma_line_end_bounds(s, (i + 1) as nat);
    }
}

pub proof fn lemma_skip_spec_bounds(s: Seq<u8>, i: nat)
    requires
        i <= s.len(),
    ensures
        i <= skip_spec(s, i) <= s.len(),
    decreases s.len() - i,
{
    if i < s.len() {
        if is_ws(s[i as int]) {
            lemma_skip_spec_bounds(s, (i + 1) as nat);
        } else if s[i as int] == 35 || (s[i as int] == 47 && i + 1 < s.len() && s[i + 1 as int]
            == 47) {
            lemma_line_end_bounds(s, (i + 1) as nat);
            lemma_skip_spec_bounds(s, line_end(s, (i + 1) as nat));
        }
    }
}

/// The end of the maximal digit run starting at `i`.
pub open spec fn digit_run_end(s: Seq<u8>, i: nat) -> nat
    decreases s.len() - i,
{
    if i < s.len() && is_digit(s[i as int]) {
        digit_run_end(s, (i + 1) as nat)
    } else {
        i
    }
}

pub proof fn lemma_digit_run_bounds(s: Seq<u8>, i: nat)
    requires
        i <= s.len(),
    ensures
        i <= digit_run_end(s, i) <= s.len(),
        all_digits(s.subrange(i as int, digit_run_end(s, i) as int)),
    decreases s.len() - i,
{
    if i < s.len() && is_digit(s[i as int]) {
        lemma_digit_run_bounds(s, (i + 1) as nat);
        let e = digit_run_end(s, i);
        assert forall|k: int| i <= k < e implies is_digit(#[trigger] s[k]) by {
            if k > i {
                assert(is_digit(s.subrange(i + 1 as int, e as int)[k - i - 1]));
            }
        }
        assert forall|k: int| 0 <= k < e - i implies is_digit(
            #[trigger] s.subrange(i as int, e as int)[k],
        ) by {
            assert(s.subrange(i as int, e as int)[k] == s[i + k]);
        }
    }
}

/// The end of the maximal identifier run starting at `i`.
pub open spec fn ident_run_end(s: Seq<u8>, i: nat) -> nat
    decreases s.len() - i,
{
    if i < s.len() && is_ident_char(s[i as int]) {
        ident_run_end(s, (i + 1) as nat)
    } else {
        i
    }
}

pub proof fn lemma_ident_run_bounds(s: Seq<u8>, i: nat)
    requires
        i <= s.len(),
    ensures
        i <= ident_run_end(s, i) <= s.len(),
    decreases s.len() - i,
{
    if i < s.len() && is_ident_char(s[i as int]) {
        lemma_ident_run_bounds(s, (i + 1) as nat);
    }
}

/// What reading one symbol yields: a token or a lexical error, with its byte
/// range.  `token` is `None` exactly when the read fails with `reason`.  In
/// either case the cursor is left at `end`.
pub struct LexResult {
    pub token: Option<Symbol>,
    pub reason: Reason,
    pub start: int,
    pub end: int,
}

/// The symbol for a single punctuation byte, if it is one.
pub open spec fn punct_symbol(c: u8) -> Option<Symbol> {
    if c == 59 {
        Some(Symbol::Semicolon)
    } else if c == 61 {
        Some(Symbol::Equal)
    } else if c == 46 {
        Some(Symbol::Punct)
    } else if c == 44 {
        Some(Symbol::Comma)
    } else if c == 40 {
        Some(Symbol::LeftParen)
    } else if c == 41 {
        Some(Symbol::RightParen)
    } else if c == 33 {
        Some(Symbol::Not)
    } else if c == 38 {
        Some(Symbol::And)
    } else if c == 124 {
        Some(Symbol::Or)
    } else if c == 94 {
        Some(Symbol::Xor)
    } else {
        None
    }
}

/// Reading one symbol from `s` at position `i`: skip whitespace and comments,
/// then classify the next byte.  Every byte that starts no symbol — including
/// a lone `/` — is an unexpected-character error spanning exactly that byte.
pub open spec fn lex_spec(s: Seq<u8>, i: nat) -> LexResult {
    let j = skip_spec(s, i);
    if j >= s.len() {
        LexResult { token: Some(Symbol::Null), reason: Reason::UnexpectedCharacter, start: j as int, end: j as int }
    } else {
        let c = s[j as int];
        if punct_symbol(c) is Some {
            LexResult { token: punct_symbol(c), reason: Reason::UnexpectedCharacter, start: j as int, end: j + 1 as int }
        } else if is_digit(c) {
            let e = digit_run_end(s, j);
            if digits_value(s.subrange(j as int, e as int)) <= usize::MAX {
                LexResult { token: Some(Symbol::Number), reason: Reason::UnexpectedCharacter, start: j as int, end: e as int }
            } else {
                LexResult { token: None, reason: Reason::InvalidNumber, start: j as int, end: e as int }
            }
        } else if is_ident_start(c) {
            let e = ident_run_end(s, j);
            let sym = match keyword_spec(s.subrange(j as int, e as int)) {
                Some(k) => k,
                None => Symbol::Identifier,
            };
            LexResult { token: Some(sym), reason: Reason::UnexpectedCharacter, start: j as int, end: e as int }
        } else {
            LexResult { token: None, reason: Reason::UnexpectedCharacter, start: j as int, end: j + 1 as int }
        }
    }
}

/// The lexical result at `i` stays within the source, never moves backwards,
/// and spans at least one byte unless it is the end-of-input token.
pub proof fn lemma_lex_spec_bounds(s: Seq<u8>, i: nat)
    requires
        i <= s.len(),
    ensures
        ({
            let lr = lex_spec(s, i);
            &&& i <= lr.start <= lr.end <= s.len()
            &&& (lr.token == Some(Symbol::Null) <==> lr.start == lr.end)
            &&& (lr.token != Some(Symbol::Null) ==> lr.start < lr.end)
        }),
{
    let j = skip_spec(s, i);
    lemma_skip_spec_bounds(s, i);
    if j < s.len() {
        let c = s[j as int];
        if punct_symbol(c) is Some {
        } else if is_digit(c) {
            lemma_digit_run_bounds(s, j);
            lemma_digit_run_bounds(s, (j + 1) as nat);
            assert(digit_run_end(s, j) == digit_run_end(s, (j + 1) as nat));
        } else if is_ident_start(c) {
            lemma_ident_run_bounds(s, j);
            lemma_ident_run_bounds(s, (j + 1) as nat);
            assert(ident_run_end(s, j) == ident_run_end(s, (j + 1) as nat));
        }
    }
}

/// The lexer: a shared source buffer and a cursor into it.
pub struct Lexer {
    pub source: Rc<Source>,
    pub index: usize,
}

impl Lexer {
    pub fn new(source: Rc<Source>) -> (r: Lexer)
        ensures
            r.source == source,
            r.index == 0,
    {
        Lexer { source, index: 0 }
    }

    /// Advances the cursor just past the current line (or to the end of the
    /// input).
    fn skip_to_line_end(&mut self)
        requires
            old(self).index <= old(self).source.code.len(),
        ensures
            final(self).source == old(self).source,
            final(self).index == line_end(old(self).source.code@, old(self).index as nat),
            final(self).index <= final(self).source.code.len(),
    {
        loop
            invariant
                self.source == old(self).source,
                self.index <= self.source.code.len(),
                line_end(self.source.code@, self.index as nat) == line_end(
                    old(self).source.code@,
                    old(self).index as nat,
                ),
            decreases self.source.code.len() - self.index,
        {
            if self.index >= self.source.code.len() {
                return ;
            }
            let c = self.source.code[self.index];
            self.index = self.index + 1;
            if c == 10 || c == 13 {
                return ;
            }
        }
    }

    /// Advances the cursor past whitespace and `#`/`//` comments.
    fn skip_filler(&mut self)
        requires
            old(self).index <= old(self).source.code.len(),
        ensures
            final(self).source == old(self).source,
            final(self).index == skip_spec(old(self).source.code@, old(self).index as nat),
            final(self).index <= final(self).source.code.len(),
    {
        loop
            invariant
                self.source == old(self).source,
                self.index <= self.source.code.len(),
                skip_spec(self.source.code@, self.index as nat) == skip_spec(
                    old(self).source.code@,
                    old(self).index as nat,
                ),
            decreases self.source.code.len() - self.index,
        {
            if self.index >= self.source.code.len() {
                return ;
            }
            let c = self.source.code[self.index];
            if c == 32 || c == 9 || c == 10 || c == 12 || c == 13 {
                self.index = self.index + 1;
            } else if c == 35 {
                let ghost i0 = self.index as nat;
                self.index = self.index + 1;
                self.skip_to_line_end();
                proof {
                    lemma_line_end_bounds(self.source.code@, (i0 + 1) as nat);
                    assert(skip_spec(self.source.code@, i0) == skip_spec(
                        self.source.code@,
                        line_end(self.source.code@, (i0 + 1) as nat),
                    ));
                }
            } else if c == 47 && self.index + 1 < self.source.code.len() && self.source.code[
                self.index + 1] == 47 {
                let ghost i0 = self.index as nat;
                self.index = self.index + 1;
                self.skip_to_line_end();
                proof {
                    lemma_line_end_bounds(self.source.code@, (i0 + 1) as nat);
                    assert(skip_spec(self.source.code@, i0) == skip_spec(
                        self.source.code@,
                        line_end(self.source.code@, (i0 + 1) as nat),
                    ));
                }
            } else {
                return ;
            }
        }
    }

    /// Reads the maximal digit run at the cursor as a number token, or
    /// reports it invalid when its value does not fit in `usize`.
    fn read_number(&mut self) -> (r: Result<Q<Symbol>, Error>)
        requires
            old(self).index < old(self).source.code.len(),
            is_digit(old(self).source.code@[old(self).index as int]),
        ensures
            final(self).source == old(self).source,
            ({
                let s = old(self).source.code@;
                let j = old(self).index as nat;
                let e = digit_run_end(s, j);
                &&& final(self).index == e
                &&& if digits_value(s.subrange(j as int, e as int)) <= usize::MAX {
                    r matches Ok(q) && q.value == Symbol::Number && q.quote.start == j
                        && q.quote.end == e
                } else {
                    r == Err::<Q<Symbol>, Error>(
                        Error {
                            quote: Quote { start: j as usize, end: e as usize },
                            reason: Reason::InvalidNumber,
                        },
                    )
                }
            }),
    {
        let start = self.index;
        let ghost s = self.source.code@;
        loop
            invariant
                self.source == old(self).source,
                start <= self.index <= self.source.code.len(),
                s == self.source.code@,
                all_digits(s.subrange(start as int, self.index as int)),
                digit_run_end(s, self.index as nat) == digit_run_end(s, start as nat),
            ensures
                self.source == old(self).source,
                s == self.source.code@,
                start <= self.index <= self.source.code.len(),
                all_digits(s.subrange(start as int, self.index as int)),
                self.index == digit_run_end(s, start as nat),
            decreases self.source.code.len() - self.index,
        {
            if self.index >= self.source.code.len() {
                break ;
            }
            let c = self.source.code[self.index];
            if !(48 <= c && c <= 57) {
                break ;
            }
            let ghost pre = self.index as int;
            self.index = self.index + 1;
            proof {
                assert forall|k: int| start <= k < self.index implies is_digit(#[trigger] s[k]) by {
                    if k < pre {
                        assert(is_digit(s.subrange(start as int, pre)[k - start]));
                    }
                }
                assert(all_digits(s.subrange(start as int, self.index as int)));
            }
        }
        let e = self.index;
        let quote = Quote::new(start, e);
        proof {
            lemma_digit_run_bounds(s, (start + 1) as nat);
            assert(digit_run_end(s, start as nat) == digit_run_end(s, (start + 1) as nat));
            assert(s.subrange(start as int, e as int) =~= self.source.code@.subrange(
                start as int,
                e as int,
            ));
        }
        match parse_number(&self.source, &quote) {
            Ok(_) => Ok(Q::new(Symbol::Number, start, e)),
            Err(err) => Err(err),
        }
    }

    /// Reads the maximal identifier run at the cursor, classifying keywords.
    fn read_identifier(&mut self) -> (r: Q<Symbol>)
        requires
            old(self).index < old(self).source.code.len(),
            is_ident_start(old(self).source.code@[old(self).index as int]),
        ensures
            final(self).source == old(self).source,
            ({
                let s = old(self).source.code@;
                let j = old(self).index as nat;
                let e = ident_run_end(s, j);
                &&& final(self).index == e
                &&& r.quote.start == j && r.quote.end == e
                &&& r.value == (match keyword_spec(s.subrange(j as int, e as int)) {
                    Some(k) => k,
                    None => Symbol::Identifier,
                })
            }),
    {
        let start = self.index;
        let ghost s = self.source.code@;
        loop
            invariant
                self.source == old(self).source,
                start <= self.index <= self.source.code.len(),
                s == self.source.code@,
                ident_run_end(s, self.index as nat) == ident_run_end(s, start as nat),
            ensures
                self.source == old(self).source,
                s == self.source.code@,
                start <= self.index <= self.source.code.len(),
                self.index == ident_run_end(s, start as nat),
            decreases self.source.code.len() - self.index,
        {
            if self.index >= self.source.code.len() {
                break ;
            }
            let c = self.source.code[self.index];
            if !(c == 95 || (97 <= c && c <= 122) || (65 <= c && c <= 90) || (48 <= c && c
                <= 57)) {
                break ;
            }
            self.index = self.index + 1;
        }
        let e = self.index;
        let slice = &self.source.code.as_slice()[start..e];
        proof {
            assert(slice@ == s.subrange(start as int, e as int));
        }
        match keyword(slice) {
            Some(k) => Q::new(k, start, e),
            None => Q::new(Symbol::Identifier, start, e),
        }
    }

    /// Reads the next symbol: the token or lexical error that [`lex_spec`]
    /// assigns to the current cursor position.
    pub fn read_symbol(&mut self) -> (r: Result<Q<Symbol>, Error>)
        requires
            old(self).index <= old(self).source.code.len(),
        ensures
            final(self).source == old(self).source,
            final(self).index <= final(self).source.code.len(),
            ({
                let lr = lex_spec(old(self).source.code@, old(self).index as nat);
                &&& final(self).index == lr.end
                &&& match r {
                    Ok(q) => lr.token == Some(q.value) && q.quote.start == lr.start
                        && q.quote.end == lr.end,
                    Err(e) => lr.token is None && e.reason == lr.reason && e.quote.start
                        == lr.start && e.quote.end == lr.end,
                }
            }),
    {
        proof {
            lemma_lex_spec_bounds(old(self).source.code@, old(self).index as nat);
        }
        self.skip_filler();
        let j = self.index;
        if j >= self.source.code.len() {
            return Ok(Q::new(Symbol::Null, j, j));
        }
        let c = self.source.code[j];
        if c == 59 {
            self.index = j + 1;
            return Ok(Q::new(Symbol::Semicolon, j, j + 1));
        }
        if c == 61 {
            self.index = j + 1;
            return Ok(Q::new(Symbol::Equal, j, j + 1));
        }
        if c == 46 {
            self.index = j + 1;
            return Ok(Q::new(Symbol::Punct, j, j + 1));
        }
        if c == 44 {
            self.index = j + 1;
            return Ok(Q::new(Symbol::Comma, j, j + 1));
        }
        if c == 40 {
            self.index = j + 1;
            return Ok(Q::new(Symbol::LeftParen, j, j + 1));
        }
        if c == 41 {
            self.index = j + 1;
            return Ok(Q::new(Symbol::RightParen, j, j + 1));
        }
        if c == 33 {
            self.index = j + 1;
            return Ok(Q::new(Symbol::Not, j, j + 1));
        }
        if c == 38 {
            self.index = j + 1;
            return Ok(Q::new(Symbol::And, j, j + 1));
        }
        if c == 124 {
            self.index = j + 1;
            return Ok(Q::new(Symbol::Or, j, j + 1));
        }
        if c == 94 {
            self.index = j + 1;
            return Ok(Q::new(Symbol::Xor, j, j + 1));
        }
        if 48 <= c && c <= 57 {
            return self.read_number();
        }
        if c == 95 || (97 <= c && c <= 122) || (65 <= c && c <= 90) {
            return Ok(self.read_identifier());
        }
        self.index = j + 1;
        Err(Error::new(Quote::new(j, j + 1), Reason::UnexpectedCharacter))
    }
}

} // verus!
