//! Complete passwords, and the two validity predicates that the codec gives.

use crate::alphabet::{Symbol, ALPHABET_LEN};
use momoden_password::PasswordChar;
use vstd::prelude::*;

verus! {

/// Least number of symbols in a password.
pub const MIN_LEN: usize = 1;

/// Greatest number of symbols in a password.
pub const MAX_LEN: usize = 38;

/// Whether the codec's `Password::is_valid` holds of the password with these
/// codes: whether the checksum that the password carries is the checksum of
/// the rest of it.
pub uninterp spec fn checksum_ok(codes: Seq<u8>) -> bool;

/// Whether a symbol can never be the second one of a valid password.
pub open spec fn second_char_invalid(code: u8) -> bool {
    code % 2 == 0
}

/// The codes of a sequence of symbols.
pub open spec fn codes_of(symbols: Seq<Symbol>) -> Seq<u8> {
    symbols.map_values(|s: Symbol| s@)
}

/// What holds of the codes of every password: they are `MIN_LEN` to
/// `MAX_LEN` codes of the alphabet.
pub open spec fn password_wf(codes: Seq<u8>) -> bool {
    &&& MIN_LEN <= codes.len() <= MAX_LEN
    &&& forall|i: int| 0 <= i < codes.len() ==> #[trigger] codes[i] < ALPHABET_LEN
}

/// A sequence of `MIN_LEN` to `MAX_LEN` symbols. Its view is the sequence of
/// their codes.
#[derive(Debug, PartialEq, Eq, Hash)]
pub struct Password {
    chars: Vec<Symbol>,
}

impl View for Password {
    type V = Seq<u8>;

    closed spec fn view(&self) -> Seq<u8> {
        codes_of(self.chars@)
    }
}

impl Clone for Password {
    fn clone(&self) -> (r: Password)
        ensures
            r@ == self@,
    {
        proof {
            use_type_invariant(self);
        }
        Password::new(self.chars.as_slice()).unwrap()
    }
}

impl Password {
    #[verifier::type_invariant]
    pub(crate) open spec fn well_formed(self) -> bool {
        password_wf(self@)
    }

    /// The password made of the given symbols, unless they are too few or
    /// too many.
    pub fn new(chars: &[Symbol]) -> (r: Option<Password>)
        ensures
            r is Some <==> MIN_LEN <= chars@.len() <= MAX_LEN,
            r matches Some(p) ==> p@ == codes_of(chars@) && password_wf(p@),
    {
        let n = chars.len();
        if n < MIN_LEN || n > MAX_LEN {
            return None;
        }
        let mut v: Vec<Symbol> = Vec::with_capacity(n);
        let mut i: usize = 0;
        while i < n
            invariant
                n == chars@.len(),
                i <= n,
                v@ == chars@.take(i as int),
                forall|j: int| 0 <= j < i ==> (#[trigger] chars@[j])@ < ALPHABET_LEN,
            decreases n - i,
        {
            let symbol = chars[i];
            proof {
                use_type_invariant(&symbol);
            }
            v.push(symbol);
            i += 1;
        }
        assert(v@ == chars@);
        Some(Password { chars: v })
    }

    /// The number of symbols.
    pub fn len(&self) -> (n: usize)
        ensures
            n == self@.len(),
            password_wf(self@),
    {
        proof {
            use_type_invariant(self);
        }
        self.chars.len()
    }

    /// The symbols, in order.
    pub fn as_slice(&self) -> (r: &[Symbol])
        ensures
            codes_of(r@) == self@,
            password_wf(self@),
    {
        proof {
            use_type_invariant(self);
        }
        self.chars.as_slice()
    }

    /// Whether the game accepts the password: whether its checksum agrees.
    pub fn is_valid(&self) -> (b: bool)
        ensures
            b == checksum_ok(self@),
    {
        proof {
            use_type_invariant(self);
        }
        checksum_is_ok(&self.chars)
    }

    /// Whether no valid password has this symbol in second place.
    pub fn is_invalid_second_char(second: Symbol) -> (b: bool)
        ensures
            b == second_char_invalid(second@),
    {
        second_char_is_invalid(second)
    }
}

impl std::ops::Deref for Password {
    type Target = [Symbol];

    fn deref(&self) -> (r: &[Symbol])
        ensures
            codes_of(r@) == self@,
    {
        self.as_slice()
    }
}

/// Builds the codec's password from the symbols and calls its
/// `Password::is_valid`, which decodes the password and compares the
/// checksum it carries with the one computed from the rest. The result is
/// named by `checksum_ok`. Outside the given lengths the codec builds no
/// password.
#[verifier::external_body]
fn checksum_is_ok(chars: &Vec<Symbol>) -> (b: bool)
    requires
        MIN_LEN <= chars@.len() <= MAX_LEN,
    ensures
        b == checksum_ok(codes_of(chars@)),
{
    let pcs: Vec<PasswordChar> =
        chars.iter().map(|s| PasswordChar::from_inner(s.code).unwrap()).collect();
    momoden_password::Password::new(&pcs).unwrap().is_valid()
}

/// Calls the codec's `Password::is_invalid_second_char`, which is true
/// exactly of the symbols with an even code.
#[verifier::external_body]
fn second_char_is_invalid(second: Symbol) -> (b: bool)
    ensures
        b == second_char_invalid(second@),
{
    momoden_password::Password::is_invalid_second_char(
        PasswordChar::from_inner(second.code).unwrap(),
    )
}

} // verus!
