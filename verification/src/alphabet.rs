//! The password alphabet: sixty-four symbols, each known by its code.

use momoden_password::PasswordChar;
use vstd::prelude::*;

verus! {

/// Number of symbols in the alphabet. Codes run from `0` to `ALPHABET_LEN - 1`.
pub const ALPHABET_LEN: usize = 64;

/// The code of the symbol that `PasswordChar::from_char` finds for a
/// character, or `None` where it finds none.
pub uninterp spec fn symbol_of_char(c: char) -> Option<u8>;

/// Whether `char::is_whitespace` holds of a character.
pub uninterp spec fn white_space(c: char) -> bool;

/// `char::is_whitespace` tells whether Unicode counts a character as white
/// space; the answer depends on the character alone.
pub assume_specification[ char::is_whitespace ](c: char) -> (b: bool)
    ensures
        b == white_space(c),
;

/// One character of the password alphabet.
#[derive(Clone, Copy, Debug, PartialEq, Eq, Hash)]
pub struct Symbol {
    pub(crate) code: u8,
}

impl View for Symbol {
    type V = u8;

    closed spec fn view(&self) -> u8 {
        self.code
    }
}

impl Symbol {
    #[verifier::type_invariant]
    pub(crate) open spec fn in_alphabet(self) -> bool {
        self@ < ALPHABET_LEN
    }

    /// The symbol with the given code, if there is one.
    pub fn new(code: u8) -> (r: Option<Symbol>)
        ensures
            r is Some <==> code < ALPHABET_LEN,
            r matches Some(s) ==> s@ == code,
    {
        if code < 64 {
            Some(Symbol { code })
        } else {
            None
        }
    }

    /// The symbol's code.
    pub fn code(&self) -> (c: u8)
        ensures
            c == self@,
            c < ALPHABET_LEN,
    {
        proof {
            use_type_invariant(self);
        }
        self.code
    }

    /// Every symbol of the alphabet, in ascending order of code.
    pub fn all() -> (r: [Symbol; ALPHABET_LEN])
        ensures
            forall|i: int| 0 <= i < ALPHABET_LEN ==> (#[trigger] r[i])@ == i,
    {
        all_symbols()
    }

    /// The symbol that a character stands for, if it stands for one.
    pub fn from_char(c: char) -> (r: Option<Symbol>)
        ensures
            symbol_view(r) == symbol_of_char(c),
    {
        lookup_symbol(c)
    }
}

/// The code inside an optional symbol.
pub open spec fn symbol_view(s: Option<Symbol>) -> Option<u8> {
    match s {
        Some(sym) => Some(sym@),
        None => None,
    }
}

/// Calls `PasswordChar::from_char`, which looks the character up in the
/// alphabet's table. The result is named by `symbol_of_char`; a symbol that
/// comes back has one of the sixty-four codes of `PasswordChar`.
#[verifier::external_body]
fn lookup_symbol(c: char) -> (r: Option<Symbol>)
    ensures
        symbol_view(r) == symbol_of_char(c),
{
    PasswordChar::from_char(c).map(|pc| Symbol { code: pc.to_inner() })
}

/// Calls `PasswordChar::all`, which returns the sixty-four symbols in
/// ascending order of code, so that the symbol at index `i` has code `i`.
#[verifier::external_body]
fn all_symbols() -> (r: [Symbol; ALPHABET_LEN])
    ensures
        forall|i: int| 0 <= i < ALPHABET_LEN ==> (#[trigger] r[i])@ == i,
{
    PasswordChar::all().map(|pc| Symbol { code: pc.to_inner() })
}

} // verus!
