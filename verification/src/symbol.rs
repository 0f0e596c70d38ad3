//! The lexical alphabet: token kinds, the keyword table and operator
//! precedence.

use vstd::prelude::*;

verus! {

/// A classified lexeme of the source language.
#[derive(Clone, Copy, Debug, PartialEq, Eq, Structural)]
pub enum Symbol {
    // --- Punctuation ---
    /// `;`
    Semicolon,
    /// `=`
    Equal,
    /// `.`
    Punct,
    /// `,`
    Comma,
    /// `(`
    LeftParen,
    /// `)`
    RightParen,
    // --- Keywords ---
    /// `let`
    Let,
    /// `not`, `!`
    Not,
    /// `and`, `&`
    And,
    /// `or`, `|`
    Or,
    /// `xor`, `^`
    Xor,
    /// `true`
    True,
    /// `false`
    False,
    // --- Literals ---
    Number,
    Identifier,
    // --- Special ---
    Null,
}

/// The keyword an identifier lexeme stands for, if any.
pub open spec fn keyword_spec(s: Seq<u8>) -> Option<Symbol> {
    if s.len() == 3 && s[0] == 108 && s[1] == 101 && s[2] == 116 {
        Some(Symbol::Let)
    } else if s.len() == 3 && s[0] == 110 && s[1] == 111 && s[2] == 116 {
        Some(Symbol::Not)
    } else if s.len() == 3 && s[0] == 97 && s[1] == 110 && s[2] == 100 {
        Some(Symbol::And)
    } else if s.len() == 2 && s[0] == 111 && s[1] == 114 {
        Some(Symbol::Or)
    } else if s.len() == 3 && s[0] == 120 && s[1] == 111 && s[2] == 114 {
        Some(Symbol::Xor)
    } else if s.len() == 4 && s[0] == 116 && s[1] == 114 && s[2] == 117 && s[3] == 101 {
        Some(Symbol::True)
    } else if s.len() == 5 && s[0] == 102 && s[1] == 97 && s[2] == 108 && s[3] == 115
        && s[4] == 101 {
        Some(Symbol::False)
    } else {
        None
    }
}

/// Looks an identifier lexeme up in the fixed keyword table.
pub fn keyword(s: &[u8]) -> (r: Option<Symbol>)
    ensures
        r == keyword_spec(s@),
{
    let n = s.len();
    if n == 3 && s[0] == 108 && s[1] == 101 && s[2] == 116 {
        Some(Symbol::Let)
    } else if n == 3 && s[0] == 110 && s[1] == 111 && s[2] == 116 {
        Some(Symbol::Not)
    } else if n == 3 && s[0] == 97 && s[1] == 110 && s[2] == 100 {
        Some(Symbol::And)
    } else if n == 2 && s[0] == 111 && s[1] == 114 {
        Some(Symbol::Or)
    } else if n == 3 && s[0] == 120 && s[1] == 111 && s[2] == 114 {
        Some(Symbol::Xor)
    } else if n == 4 && s[0] == 116 && s[1] == 114 && s[2] == 117 && s[3] == 101 {
        Some(Symbol::True)
    } else if n == 5 && s[0] == 102 && s[1] == 97 && s[2] == 108 && s[3] == 115
        && s[4] == 101 {
        Some(Symbol::False)
    } else {
        None
    }
}

impl Symbol {
    pub fn is_unary_op(self) -> (r: bool)
        ensures
            r == (self == Symbol::Not),
    {
        matches!(self, Symbol::Not)
    }

    pub fn is_binary_op(self) -> (r: bool)
        ensures
            r == (self == Symbol::And || self == Symbol::Or || self == Symbol::Xor),
    {
        matches!(self, Symbol::And | Symbol::Or | Symbol::Xor)
    }

    /// Binding strength of a binary operator: higher binds tighter.
    pub fn precedence(self) -> (r: usize)
        requires
            self == Symbol::And || self == Symbol::Or || self == Symbol::Xor,
        ensures
            r == precedence_spec(self),
    {
        match self {
            Symbol::And => 3,
            Symbol::Xor => 2,
            _ => 1,
        }
    }
}

/// Law: the binary operators bind in the grammar's order — `and` tighter
/// than `xor`, and `xor` tighter than `or` — so a conjunction groups under
/// a disjunction, never the other way around.
pub proof fn lemma_precedence_order()
    ensures
        precedence_spec(Symbol::And) > precedence_spec(Symbol::Xor),
        precedence_spec(Symbol::Xor) > precedence_spec(Symbol::Or),
{
}

pub open spec fn precedence_spec(s: Symbol) -> usize {
    match s {
        Symbol::And => 3usize,
        Symbol::Xor => 2usize,
        _ => 1usize,
    }
}

} // verus!
