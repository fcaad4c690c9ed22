//! Patterns: passwords in which up to three positions are left open.

use crate::alphabet::{symbol_of_char, Symbol, ALPHABET_LEN};
use crate::password::{MAX_LEN, MIN_LEN};
use arrayvec::ArrayVec;
use vstd::prelude::*;

verus! {

/// Greatest number of wildcards in a pattern.
pub const COUNT_ANY_MAX: usize = 3;

/// `arrayvec::ArrayVec`, a vector that holds at most `CAP` elements. What it
/// holds is known only through `held_slots`.
#[verifier::external_type_specification]
#[verifier::external_body]
#[verifier::reject_recursive_types(T)]
pub struct ExArrayVec<T, const CAP: usize>(ArrayVec<T, CAP>);

/// One position of a pattern: a symbol, or the wildcard. Its view is the
/// symbol's code, or `None` for the wildcard.
#[derive(Clone, Copy, Debug, PartialEq, Eq, Hash)]
pub enum PatternChar {
    Password(Symbol),
    Any,
}

impl View for PatternChar {
    type V = Option<u8>;

    open spec fn view(&self) -> Option<u8> {
        match *self {
            PatternChar::Password(s) => Some(s@),
            PatternChar::Any => None,
        }
    }
}

/// What a character stands for in a query: `Some(None)` is the wildcard,
/// `Some(Some(code))` a symbol, and `None` marks a character that is neither.
pub open spec fn slot_of_char(c: char) -> Option<Option<u8>> {
    if c == '?' {
        Some(None)
    } else {
        match symbol_of_char(c) {
            Some(code) => Some(Some(code)),
            None => None,
        }
    }
}

/// The view of an optional pattern position.
pub open spec fn slot_view(pc: Option<PatternChar>) -> Option<Option<u8>> {
    match pc {
        Some(x) => Some(x@),
        None => None,
    }
}

impl PatternChar {
    /// Reads one character of a query: `?` is the wildcard, any other
    /// character must be one of the alphabet.
    pub fn from_char(c: char) -> (r: Option<PatternChar>)
        ensures
            slot_view(r) == slot_of_char(c),
    {
        if c == '?' {
            Some(PatternChar::Any)
        } else {
            match Symbol::from_char(c) {
                Some(s) => Some(PatternChar::Password(s)),
                None => None,
            }
        }
    }
}

/// The views of a sequence of pattern positions.
pub open spec fn slots_of(chars: Seq<PatternChar>) -> Seq<Option<u8>> {
    chars.map_values(|pc: PatternChar| pc@)
}

/// The test for a wildcard.
pub open spec fn is_open() -> spec_fn(Option<u8>) -> bool {
    |s: Option<u8>| s is None
}

/// The number of wildcards among the given positions.
pub open spec fn wildcards(slots: Seq<Option<u8>>) -> nat {
    slots.filter(is_open()).len()
}

/// Whether positions have the shape of a pattern: the length of a password,
/// and one to `COUNT_ANY_MAX` wildcards.
pub open spec fn pattern_shape(slots: Seq<Option<u8>>) -> bool {
    &&& MIN_LEN <= slots.len() <= MAX_LEN
    &&& 1 <= wildcards(slots) <= COUNT_ANY_MAX
}

/// Whether every code among the positions is one of the alphabet.
pub open spec fn in_alphabet(slots: Seq<Option<u8>>) -> bool {
    forall|i: int|
        0 <= i < slots.len() ==> ((#[trigger] slots[i]) matches Some(code) ==> code
            < ALPHABET_LEN)
}

/// What holds of every pattern: it has the shape of one, and its symbols
/// are of the alphabet.
pub open spec fn pattern_wf(slots: Seq<Option<u8>>) -> bool {
    &&& pattern_shape(slots)
    &&& in_alphabet(slots)
}

/// The positions that a bounded vector of pattern positions holds, in order.
pub uninterp spec fn held_slots(v: ArrayVec<PatternChar, MAX_LEN>) -> Seq<PatternChar>;

/// `ArrayVec::new` gives a vector that holds nothing.
#[verifier::external_body]
pub(crate) fn slots_new() -> (v: ArrayVec<PatternChar, MAX_LEN>)
    ensures
        held_slots(v) == Seq::<PatternChar>::empty(),
{
    ArrayVec::new()
}

/// `ArrayVec::push` appends the element; it panics on a full vector.
#[verifier::external_body]
pub(crate) fn slots_push(v: &mut ArrayVec<PatternChar, MAX_LEN>, pc: PatternChar)
    requires
        held_slots(*old(v)).len() < MAX_LEN,
    ensures
        held_slots(*final(v)) == held_slots(*old(v)).push(pc),
{
    v.push(pc)
}

/// `ArrayVec::as_slice` gives the elements held, in order.
#[verifier::external_body]
pub(crate) fn slots_as_slice(v: &ArrayVec<PatternChar, MAX_LEN>) -> (s: &[PatternChar])
    ensures
        s@ == held_slots(*v),
{
    v.as_slice()
}

/// A sequence of pattern positions, as long as a password, with at least one
/// wildcard and at most `COUNT_ANY_MAX`. Its view is the sequence of the
/// positions' views.
#[derive(Debug)]
pub struct Pattern {
    inner: ArrayVec<PatternChar, MAX_LEN>,
}

impl View for Pattern {
    type V = Seq<Option<u8>>;

    closed spec fn view(&self) -> Seq<Option<u8>> {
        slots_of(held_slots(self.inner))
    }
}

impl Pattern {
    #[verifier::type_invariant]
    pub(crate) open spec fn well_formed(self) -> bool {
        pattern_wf(self@)
    }

    /// Wraps positions that make a pattern.
    pub(crate) fn new(inner: ArrayVec<PatternChar, MAX_LEN>) -> (p: Pattern)
        requires
            pattern_wf(slots_of(held_slots(inner))),
        ensures
            p@ == slots_of(held_slots(inner)),
    {
        Pattern { inner }
    }

    /// The positions, in order.
    pub fn as_slice(&self) -> (s: &[PatternChar])
        ensures
            slots_of(s@) == self@,
            pattern_wf(self@),
    {
        proof {
            use_type_invariant(self);
        }
        slots_as_slice(&self.inner)
    }

    /// The number of positions.
    pub fn len(&self) -> (n: usize)
        ensures
            n == self@.len(),
            pattern_wf(self@),
    {
        self.as_slice().len()
    }
}

impl std::ops::Deref for Pattern {
    type Target = [PatternChar];

    fn deref(&self) -> (s: &[PatternChar])
        ensures
            slots_of(s@) == self@,
    {
        self.as_slice()
    }
}

} // verus!
