//! Queries: one line of text, read as a password or as a pattern.

use crate::alphabet::{symbol_of_char, white_space, Symbol};
use crate::password::{codes_of, password_wf, Password, MAX_LEN, MIN_LEN};
use crate::pattern::{
    held_slots, in_alphabet, is_open, pattern_shape, pattern_wf, slot_of_char, slots_as_slice,
    slots_new, slots_of, slots_push, wildcards, Pattern, PatternChar, COUNT_ANY_MAX,
};
use arrayvec::ArrayVec;
use vstd::prelude::*;
use vstd::string::StringExecFns;

verus! {

/// What a line of text asks for.
#[derive(Debug)]
pub enum Query {
    /// A complete password. Nothing is said of its checksum.
    Password(Password),
    /// A pattern with at least one wildcard.
    Pattern(Pattern),
}

/// The view of a query: a password's codes, or a pattern's positions.
pub ghost enum QueryView {
    Password(Seq<u8>),
    Pattern(Seq<Option<u8>>),
}

impl View for Query {
    type V = QueryView;

    open spec fn view(&self) -> QueryView {
        match *self {
            Query::Password(p) => QueryView::Password(p@),
            Query::Pattern(p) => QueryView::Pattern(p@),
        }
    }
}

/// Why a line of text is no query.
#[derive(Clone, Copy, Debug, PartialEq, Eq)]
pub enum QueryParseError {
    /// Nothing but whitespace.
    Empty,
    /// More characters than a password has.
    TooLong,
    /// More than `COUNT_ANY_MAX` wildcards.
    TooManyAny,
    /// The character `ch`, the one at index `pos` once whitespace is left
    /// out, is neither the wildcard nor part of the alphabet.
    InvalidChar { pos: usize, ch: char },
}

/// The decimal digits that `usize::to_string` writes for a number.
pub uninterp spec fn decimal(n: usize) -> Seq<char>;

/// What `QueryParseError::message` says of an error.
pub open spec fn message_spec(e: QueryParseError) -> Seq<char> {
    match e {
        QueryParseError::Empty => "入力が空"@,
        QueryParseError::TooLong => "入力は "@ + decimal(MAX_LEN) + " 文字まで"@,
        QueryParseError::TooManyAny => "'?' は "@ + decimal(COUNT_ANY_MAX) + " 個まで"@,
        QueryParseError::InvalidChar { pos, ch } => decimal((pos + 1) as usize)
            + " 個目の文字が無効: '"@ + seq![ch] + "'"@,
    }
}

/// `usize::to_string` writes the number in decimal digits, which depend on
/// the number alone.
#[verifier::external_body]
fn decimal_string(n: usize) -> (r: String)
    ensures
        r@ == decimal(n),
{
    n.to_string()
}

/// `String::push` appends the character to the end of the string.
pub assume_specification[ String::push ](s: &mut String, ch: char)
    ensures
        final(s)@ == old(s)@.push(ch),
;

impl QueryParseError {
    /// One line that tells the user what is wrong. A position is counted
    /// from one.
    pub fn message(&self) -> (r: String)
        requires
            self matches QueryParseError::InvalidChar { pos, .. } ==> pos < usize::MAX,
        ensures
            r@ == message_spec(*self),
    {
        match *self {
            QueryParseError::Empty => String::from_str("入力が空"),
            QueryParseError::TooLong => {
                let mut r = String::from_str("入力は ");
                r.append(decimal_string(MAX_LEN).as_str());
                r.append(" 文字まで");
                r
            },
            QueryParseError::TooManyAny => {
                let mut r = String::from_str("'?' は ");
                r.append(decimal_string(COUNT_ANY_MAX).as_str());
                r.append(" 個まで");
                r
            },
            QueryParseError::InvalidChar { pos, ch } => {
                let mut r = decimal_string(pos + 1);
                r.append(" 個目の文字が無効: '");
                r.push(ch);
                r.append("'");
                r
            },
        }
    }
}

/// The test for a character that is kept.
pub open spec fn not_space() -> spec_fn(char) -> bool {
    |c: char| !white_space(c)
}

/// The text without its whitespace.
pub open spec fn retained(text: Seq<char>) -> Seq<char> {
    text.filter(not_space())
}

/// Whether every character stands for a pattern position.
pub open spec fn all_known(t: Seq<char>) -> bool {
    forall|i: int| 0 <= i < t.len() ==> slot_of_char(#[trigger] t[i]) is Some
}

/// Whether `pos` is the index of the first character that stands for nothing.
pub open spec fn is_first_unknown(t: Seq<char>, pos: int) -> bool {
    &&& 0 <= pos < t.len()
    &&& slot_of_char(t[pos]) is None
    &&& all_known(t.take(pos))
}

/// The index of the first character that stands for nothing, where there is
/// one.
pub open spec fn first_unknown(t: Seq<char>) -> int {
    choose|pos: int| is_first_unknown(t, pos)
}

/// The pattern positions that the characters stand for.
pub open spec fn slots_of_text(t: Seq<char>) -> Seq<Option<u8>> {
    t.map_values(|c: char| slot_of_char(c).unwrap())
}

/// The codes at positions that hold no wildcard.
pub open spec fn fixed_codes(slots: Seq<Option<u8>>) -> Seq<u8> {
    slots.map_values(|s: Option<u8>| s.unwrap())
}

/// What a sequence of pattern positions makes: nothing where it is empty,
/// too long or has too many wildcards, a password where it has no
/// wildcard, else a pattern.
pub open spec fn assemble_spec(slots: Seq<Option<u8>>) -> Result<QueryView, QueryParseError> {
    if slots.len() == 0 {
        Err(QueryParseError::Empty)
    } else if slots.len() > MAX_LEN {
        Err(QueryParseError::TooLong)
    } else if wildcards(slots) > COUNT_ANY_MAX {
        Err(QueryParseError::TooManyAny)
    } else if wildcards(slots) == 0 {
        Ok(QueryView::Password(fixed_codes(slots)))
    } else {
        Ok(QueryView::Pattern(slots))
    }
}

/// What `Query::parse` makes of a text.
pub open spec fn parse_spec(text: Seq<char>) -> Result<QueryView, QueryParseError> {
    let t = retained(text);
    if t.len() == 0 {
        Err(QueryParseError::Empty)
    } else if t.len() > MAX_LEN {
        Err(QueryParseError::TooLong)
    } else if !all_known(t) {
        let pos = first_unknown(t);
        Err(QueryParseError::InvalidChar { pos: pos as usize, ch: t[pos] })
    } else {
        assemble_spec(slots_of_text(t))
    }
}

/// What holds of every query: of its password, or of its pattern.
pub open spec fn query_wf(q: QueryView) -> bool {
    match q {
        QueryView::Password(codes) => password_wf(codes),
        QueryView::Pattern(slots) => pattern_wf(slots),
    }
}

/// The view of what `Query::parse` returns.
pub open spec fn outcome_view(r: Result<Query, QueryParseError>) -> Result<
    QueryView,
    QueryParseError,
> {
    match r {
        Ok(q) => Ok(q@),
        Err(e) => Err(e),
    }
}

/// The first unknown character is where the scan meets it.
proof fn lemma_first_unknown(t: Seq<char>, pos: int)
    requires
        is_first_unknown(t, pos),
    ensures
        !all_known(t),
        first_unknown(t) == pos,
{
    assert(slot_of_char(t[pos]) is None);
    let q = first_unknown(t);
    assert(is_first_unknown(t, q));
    if q < pos {
        assert(t.take(pos)[q] == t[q]);
    }
    if pos < q {
        assert(t.take(q)[pos] == t[pos]);
    }
}

/// Without wildcards every position holds a symbol.
proof fn lemma_no_wildcards(slots: Seq<Option<u8>>, i: int)
    requires
        wildcards(slots) == 0,
        0 <= i < slots.len(),
    ensures
        slots[i] is Some,
{
    if slots[i] is None {
        slots.lemma_filter_contains(is_open(), i);
    }
}

/// The test for the wildcard character.
pub open spec fn is_mark() -> spec_fn(char) -> bool {
    |c: char| c == '?'
}

/// The symbols that the characters stand for.
pub open spec fn codes_of_text(t: Seq<char>) -> Seq<u8> {
    t.map_values(|c: char| symbol_of_char(c).unwrap())
}

/// Whether a text shows the password with the given codes: without its
/// whitespace it has one character for each symbol, in order, and each is
/// the character of that symbol.
pub open spec fn renders(text: Seq<char>, codes: Seq<u8>) -> bool {
    let t = retained(text);
    &&& t.len() == codes.len()
    &&& forall|i: int|
        0 <= i < t.len() ==> (#[trigger] t[i]) != '?' && symbol_of_char(t[i]) == Some(codes[i])
}

/// Among characters that all stand for something, the wildcards of the
/// pattern are the question marks of the text.
proof fn lemma_wildcards_are_marks(t: Seq<char>)
    requires
        all_known(t),
    ensures
        wildcards(slots_of_text(t)) == t.filter(is_mark()).len(),
    decreases t.len(),
{
    reveal(Seq::filter);
    if t.len() > 0 {
        let rest = t.drop_last();
        let c = t.last();
        assert(t == rest.push(c));
        assert forall|i: int| 0 <= i < rest.len() implies slot_of_char(#[trigger] rest[i])
            is Some by {
            assert(rest[i] == t[i]);
        }
        lemma_wildcards_are_marks(rest);
        assert(slot_of_char(t[t.len() - 1]) is Some);
        assert(slots_of_text(t) == slots_of_text(rest).push(slot_of_char(c).unwrap()));
        slots_of_text(rest).lemma_filter_push(slot_of_char(c).unwrap(), is_open());
        rest.lemma_filter_push(c, is_mark());
    } else {
        assert(slots_of_text(t) == Seq::<Option<u8>>::empty());
    }
}

/// What is read from a text is a password of a password's length, or a
/// pattern of that length with one to `COUNT_ANY_MAX` wildcards.
pub proof fn lemma_parse_well_formed(text: Seq<char>)
    ensures
        match parse_spec(text) {
            Ok(QueryView::Password(codes)) => MIN_LEN <= codes.len() <= MAX_LEN,
            Ok(QueryView::Pattern(slots)) => pattern_shape(slots),
            Err(_) => true,
        },
{
}

/// A text of nothing but whitespace, or of nothing at all, is refused as
/// empty.
pub proof fn lemma_blank_text(text: Seq<char>)
    requires
        forall|i: int| 0 <= i < text.len() ==> white_space(#[trigger] text[i]),
    ensures
        parse_spec(text) == Err::<QueryView, QueryParseError>(QueryParseError::Empty),
{
    assert(text.all(|c: char| !not_space()(c)));
    text.lemma_all_neg_filter_empty(not_space());
}

/// A text with more characters than a password has, whitespace left out, is
/// refused as too long, whatever the characters are.
pub proof fn lemma_long_text(text: Seq<char>)
    requires
        retained(text).len() > MAX_LEN,
    ensures
        parse_spec(text) == Err::<QueryView, QueryParseError>(QueryParseError::TooLong),
{
}

/// A text of a password's length whose characters all stand for something,
/// more than `COUNT_ANY_MAX` of them being question marks, is refused for
/// its wildcards.
pub proof fn lemma_too_many_marks(text: Seq<char>)
    requires
        1 <= retained(text).len() <= MAX_LEN,
        all_known(retained(text)),
        retained(text).filter(is_mark()).len() > COUNT_ANY_MAX,
    ensures
        parse_spec(text) == Err::<QueryView, QueryParseError>(QueryParseError::TooManyAny),
{
    lemma_wildcards_are_marks(retained(text));
}

/// A text of a password's length in which every character is one of the
/// alphabet is read as the password of those symbols, in the order of the
/// text.
pub proof fn lemma_password_text(text: Seq<char>)
    requires
        1 <= retained(text).len() <= MAX_LEN,
        forall|i: int|
            0 <= i < retained(text).len() ==> (#[trigger] retained(text)[i]) != '?'
                && symbol_of_char(retained(text)[i]) is Some,
    ensures
        parse_spec(text) == Ok::<QueryView, QueryParseError>(
            QueryView::Password(codes_of_text(retained(text))),
        ),
{
    let t = retained(text);
    assert(all_known(t));
    lemma_wildcards_are_marks(t);
    assert(t.all(|c: char| !is_mark()(c)));
    t.lemma_all_neg_filter_empty(is_mark());
    assert(fixed_codes(slots_of_text(t)) == codes_of_text(t));
}

/// A text of a password's length whose characters all stand for something,
/// one to `COUNT_ANY_MAX` of them being question marks, is read as a
/// pattern of the same length: a wildcard where the text has a question
/// mark, and elsewhere the symbol of the character.
pub proof fn lemma_pattern_text(text: Seq<char>)
    requires
        1 <= retained(text).len() <= MAX_LEN,
        all_known(retained(text)),
        1 <= retained(text).filter(is_mark()).len() <= COUNT_ANY_MAX,
    ensures
        parse_spec(text) matches Ok(QueryView::Pattern(p)) && {
            &&& pattern_shape(p)
            &&& p.len() == retained(text).len()
            &&& forall|i: int|
                0 <= i < p.len() ==> (#[trigger] p[i]) == if retained(text)[i] == '?' {
                    None
                } else {
                    symbol_of_char(retained(text)[i])
                }
        },
{
    lemma_wildcards_are_marks(retained(text));
}

/// Reading a text that shows a password gives that password back, wherever
/// the text has whitespace.
pub proof fn lemma_reparse_rendering(text: Seq<char>, codes: Seq<u8>)
    requires
        1 <= codes.len() <= MAX_LEN,
        renders(text, codes),
    ensures
        parse_spec(text) == Ok::<QueryView, QueryParseError>(QueryView::Password(codes)),
{
    lemma_password_text(text);
    assert(codes_of_text(retained(text)) == codes);
}

/// Counts the characters that are no whitespace, as far as one more than a
/// password has.
fn count_retained(s: &str) -> (n: usize)
    ensures
        n <= MAX_LEN + 1,
        n <= MAX_LEN ==> n == retained(s@).len(),
        n > MAX_LEN ==> retained(s@).len() > MAX_LEN,
{
    let mut n: usize = 0;
    for c in it: s.chars()
        invariant
            it.seq() == s@,
            n == retained(s@.take(it.index() as int)).len(),
            n <= MAX_LEN,
    {
        proof {
            let seen = s@.take(it.index() as int);
            assert(s@.take(it.index() + 1) == seen.push(c));
            seen.lemma_filter_push(c, not_space());
        }
        if !c.is_whitespace() {
            n += 1;
            if n > MAX_LEN {
                proof {
                    s@.lemma_filter_take_len(not_space(), it.index() + 1);
                }
                return n;
            }
        }
    }
    assert(s@.take(s@.len() as int) == s@);
    n
}

/// Reads each character that is no whitespace as a pattern position and
/// counts the wildcards, as far as the first character that stands for
/// nothing.
fn read_slots(s: &str) -> (r: Result<(ArrayVec<PatternChar, MAX_LEN>, usize), QueryParseError>)
    requires
        retained(s@).len() <= MAX_LEN,
    ensures
        match r {
            Ok((v, count_any)) => {
                &&& all_known(retained(s@))
                &&& slots_of(held_slots(v)) == slots_of_text(retained(s@))
                &&& in_alphabet(slots_of(held_slots(v)))
                &&& count_any == wildcards(slots_of_text(retained(s@)))
            },
            Err(e) => {
                &&& !all_known(retained(s@))
                &&& 0 <= first_unknown(retained(s@)) < retained(s@).len()
                &&& e == (QueryParseError::InvalidChar {
                    pos: first_unknown(retained(s@)) as usize,
                    ch: retained(s@)[first_unknown(retained(s@))],
                })
            },
        },
{
    let mut v = slots_new();
    let mut count_any: usize = 0;
    let mut pos: usize = 0;
    for c in it: s.chars()
        invariant
            it.seq() == s@,
            retained(s@).len() <= MAX_LEN,
            pos == retained(s@.take(it.index() as int)).len(),
            pos <= MAX_LEN,
            all_known(retained(s@.take(it.index() as int))),
            slots_of(held_slots(v)) == slots_of_text(retained(s@.take(it.index() as int))),
            in_alphabet(slots_of(held_slots(v))),
            count_any == wildcards(slots_of_text(retained(s@.take(it.index() as int)))),
            count_any <= pos,
    {
        let ghost seen = retained(s@.take(it.index() as int));
        let ghost next = retained(s@.take(it.index() + 1));
        proof {
            let before = s@.take(it.index() as int);
            assert(s@.take(it.index() + 1) == before.push(c));
            before.lemma_filter_push(c, not_space());
            s@.take(it.index() + 1).lemma_filter_monotone(s@, not_space());
        }
        if !c.is_whitespace() {
            assert(next == seen.push(c));
            assert(retained(s@).take(pos as int) == seen);
            assert(retained(s@)[pos as int] == next[pos as int]);
            let pc = match PatternChar::from_char(c) {
                Some(pc) => pc,
                None => {
                    proof {
                        lemma_first_unknown(retained(s@), pos as int);
                    }
                    return Err(QueryParseError::InvalidChar { pos, ch: c });
                },
            };
            proof {
                assert(slots_of_text(seen.push(c)) == slots_of_text(seen).push(pc@));
                assert(slots_of(held_slots(v).push(pc)) == slots_of(held_slots(v)).push(pc@));
                slots_of_text(seen).lemma_filter_push(pc@, is_open());
                assert(slots_of(held_slots(v)).len() == pos);
            }
            match pc {
                PatternChar::Any => {
                    count_any += 1;
                },
                PatternChar::Password(symbol) => {
                    proof {
                        use_type_invariant(&symbol);
                    }
                },
            }
            slots_push(&mut v, pc);
            pos += 1;
        }
    }
    assert(s@.take(s@.len() as int) == s@);
    Ok((v, count_any))
}

/// The symbols at the positions of a sequence without wildcards.
fn fixed_symbols(slots: &[PatternChar]) -> (r: Vec<Symbol>)
    requires
        wildcards(slots_of(slots@)) == 0,
    ensures
        codes_of(r@) == fixed_codes(slots_of(slots@)),
{
    let mut r: Vec<Symbol> = Vec::with_capacity(slots.len());
    let mut i: usize = 0;
    while i < slots.len()
        invariant
            i <= slots@.len(),
            wildcards(slots_of(slots@)) == 0,
            codes_of(r@) == fixed_codes(slots_of(slots@)).take(i as int),
        decreases slots@.len() - i,
    {
        proof {
            lemma_no_wildcards(slots_of(slots@), i as int);
        }
        let ghost before = r@;
        match slots[i] {
            PatternChar::Password(sym) => {
                r.push(sym);
                assert(codes_of(before.push(sym)) == codes_of(before).push(sym@));
            },
            PatternChar::Any => {
                assert(false);
            },
        }
        assert(fixed_codes(slots_of(slots@)).take(i + 1) == fixed_codes(
            slots_of(slots@),
        ).take(i as int).push(slots_of(slots@)[i as int].unwrap()));
        i += 1;
    }
    assert(fixed_codes(slots_of(slots@)).take(slots@.len() as int) == fixed_codes(
        slots_of(slots@),
    ));
    r
}

/// Makes a query of pattern positions whose wildcards are counted.
fn assemble(v: ArrayVec<PatternChar, MAX_LEN>, count_any: usize) -> (r: Result<
    Query,
    QueryParseError,
>)
    requires
        1 <= held_slots(v).len() <= MAX_LEN,
        in_alphabet(slots_of(held_slots(v))),
        count_any == wildcards(slots_of(held_slots(v))),
    ensures
        outcome_view(r) == assemble_spec(slots_of(held_slots(v))),
        r matches Ok(q) ==> query_wf(q@),
{
    if count_any > COUNT_ANY_MAX {
        return Err(QueryParseError::TooManyAny);
    }
    if count_any > 0 {
        Ok(Query::Pattern(Pattern::new(v)))
    } else {
        let symbols = fixed_symbols(slots_as_slice(&v));
        assert(symbols@.len() == codes_of(symbols@).len());
        Ok(Query::Password(Password::new(symbols.as_slice()).unwrap()))
    }
}

impl Query {
    /// Reads a line of text. Whitespace counts for nothing, wherever it
    /// stands. What is left must have the length of a password, each
    /// character being the wildcard `?` or one of the alphabet, with at most
    /// `COUNT_ANY_MAX` wildcards. Without a wildcard the text is a password,
    /// else a pattern. The first check that fails, in the order of
    /// `parse_spec`, gives the error.
    pub fn parse(s: &str) -> (r: Result<Query, QueryParseError>)
        ensures
            outcome_view(r) == parse_spec(s@),
            r matches Ok(q) ==> query_wf(q@),
            r matches Err(QueryParseError::InvalidChar { pos, .. }) ==> pos < MAX_LEN,
    {
        let len = count_retained(s);
        if len == 0 {
            return Err(QueryParseError::Empty);
        }
        if len > MAX_LEN {
            return Err(QueryParseError::TooLong);
        }
        let (v, count_any) = match read_slots(s) {
            Ok(read) => read,
            Err(e) => {
                return Err(e);
            },
        };
        assert(slots_of(held_slots(v)).len() == held_slots(v).len());
        assemble(v, count_any)
    }

    /// Makes a query of pattern positions that are already read, by the
    /// rules of `parse`: they must have the length of a password and at most
    /// `COUNT_ANY_MAX` wildcards, and make a password where there is no
    /// wildcard, else a pattern.
    pub fn from_pattern_chars(chars: &[PatternChar]) -> (r: Result<Query, QueryParseError>)
        ensures
            outcome_view(r) == assemble_spec(slots_of(chars@)),
            r matches Ok(q) ==> query_wf(q@),
    {
        let n = chars.len();
        if n == 0 {
            return Err(QueryParseError::Empty);
        }
        if n > MAX_LEN {
            return Err(QueryParseError::TooLong);
        }
        let mut v = slots_new();
        let mut count_any: usize = 0;
        let mut i: usize = 0;
        while i < n
            invariant
                n == chars@.len(),
                i <= n <= MAX_LEN,
                held_slots(v) == chars@.take(i as int),
                in_alphabet(slots_of(held_slots(v))),
                count_any == wildcards(slots_of(chars@.take(i as int))),
                count_any <= i,
            decreases n - i,
        {
            let pc = chars[i];
            proof {
                let seen = chars@.take(i as int);
                assert(chars@.take(i + 1) == seen.push(pc));
                assert(slots_of(seen.push(pc)) == slots_of(seen).push(pc@));
                slots_of(seen).lemma_filter_push(pc@, is_open());
            }
            match pc {
                PatternChar::Any => {
                    count_any += 1;
                },
                PatternChar::Password(symbol) => {
                    proof {
                        use_type_invariant(&symbol);
                    }
                },
            }
            slots_push(&mut v, pc);
            i += 1;
        }
        assert(chars@.take(n as int) == chars@);
        assemble(v, count_any)
    }
}

} // verus!
