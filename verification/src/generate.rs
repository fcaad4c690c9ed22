//! The search for the passwords that a pattern admits.

use crate::alphabet::{Symbol, ALPHABET_LEN};
use crate::password::{checksum_ok, codes_of, password_wf, second_char_invalid, Password};
use crate::pattern::{pattern_wf, slots_of, Pattern, PatternChar};
use vstd::prelude::*;

verus! {

/// Whether a complete candidate is part of the result: its second symbol,
/// if it has one, is not ruled out, and its checksum agrees.
pub open spec fn emitted(cand: Seq<u8>) -> bool {
    &&& !(cand.len() >= 2 && second_char_invalid(cand[1]))
    &&& checksum_ok(cand)
}

/// The passwords that the search emits below the node reached by `prefix`,
/// in the order in which it emits them: positions are filled from left to
/// right, and a wildcard takes the symbols in ascending order of code.
pub open spec fn completions(pattern: Seq<Option<u8>>, prefix: Seq<u8>) -> Seq<Seq<u8>>
    decreases pattern.len() - prefix.len(), ALPHABET_LEN + 1,
{
    if prefix.len() >= pattern.len() {
        if emitted(prefix) {
            seq![prefix]
        } else {
            Seq::empty()
        }
    } else {
        match pattern[prefix.len() as int] {
            Some(code) => completions(pattern, prefix.push(code)),
            None => choices(pattern, prefix, ALPHABET_LEN as nat),
        }
    }
}

/// What the search emits at a wildcard for the first `n` symbols of the
/// alphabet, taken in turn.
pub open spec fn choices(pattern: Seq<Option<u8>>, prefix: Seq<u8>, n: nat) -> Seq<Seq<u8>>
    decreases pattern.len() - prefix.len(), n,
{
    if prefix.len() >= pattern.len() || n == 0 {
        Seq::empty()
    } else {
        choices(pattern, prefix, (n - 1) as nat) + completions(
            pattern,
            prefix.push((n - 1) as u8),
        )
    }
}

/// The first `n` entries, or all of them where there are fewer.
pub open spec fn truncate(found: Seq<Seq<u8>>, n: nat) -> Seq<Seq<u8>> {
    if found.len() <= n {
        found
    } else {
        found.take(n as int)
    }
}

/// What `generate_passwords` returns.
pub open spec fn generate_spec(pattern: Seq<Option<u8>>, count_max: nat) -> Seq<Seq<u8>> {
    truncate(completions(pattern, Seq::empty()), count_max)
}

/// The views of a sequence of passwords.
pub open spec fn passwords_view(passwords: Seq<Password>) -> Seq<Seq<u8>> {
    passwords.map_values(|p: Password| p@)
}

/// Nothing is emitted below a node whose second symbol is ruled out.
pub proof fn lemma_pruned(pattern: Seq<Option<u8>>, prefix: Seq<u8>)
    requires
        prefix.len() >= 2,
        second_char_invalid(prefix[1]),
    ensures
        completions(pattern, prefix).len() == 0,
    decreases pattern.len() - prefix.len(), ALPHABET_LEN + 1,
{
    if prefix.len() < pattern.len() {
        match pattern[prefix.len() as int] {
            Some(code) => {
                lemma_pruned(pattern, prefix.push(code));
            },
            None => {
                lemma_pruned_choices(pattern, prefix, ALPHABET_LEN as nat);
            },
        }
    }
}

proof fn lemma_pruned_choices(pattern: Seq<Option<u8>>, prefix: Seq<u8>, n: nat)
    requires
        prefix.len() >= 2,
        second_char_invalid(prefix[1]),
    ensures
        choices(pattern, prefix, n).len() == 0,
    decreases pattern.len() - prefix.len(), n,
{
    if prefix.len() < pattern.len() && n > 0 {
        lemma_pruned_choices(pattern, prefix, (n - 1) as nat);
        lemma_pruned(pattern, prefix.push((n - 1) as u8));
    }
}

/// Whether a candidate fills the pattern: it has the pattern's length, the
/// pattern's symbol wherever the pattern has one, and a symbol of the
/// alphabet at each wildcard.
pub open spec fn admits(pattern: Seq<Option<u8>>, cand: Seq<u8>) -> bool {
    &&& cand.len() == pattern.len()
    &&& forall|i: int| 0 <= i < cand.len() ==> fills(#[trigger] pattern[i], cand[i])
}

/// Whether a code may stand at a pattern position.
pub open spec fn fills(slot: Option<u8>, code: u8) -> bool {
    match slot {
        Some(fixed) => code == fixed,
        None => code < ALPHABET_LEN,
    }
}

/// Whether a candidate lies below the node reached by `prefix`.
spec fn below(pattern: Seq<Option<u8>>, prefix: Seq<u8>, cand: Seq<u8>) -> bool {
    &&& cand.len() == pattern.len()
    &&& prefix.is_prefix_of(cand)
    &&& forall|i: int| prefix.len() <= i < cand.len() ==> fills(#[trigger] pattern[i], cand[i])
}

/// What is emitted below a node lies below it and is an emitted candidate.
proof fn lemma_completions_sound(pattern: Seq<Option<u8>>, prefix: Seq<u8>, i: int)
    requires
        prefix.len() <= pattern.len(),
        0 <= i < completions(pattern, prefix).len(),
    ensures
        below(pattern, prefix, completions(pattern, prefix)[i]),
        emitted(completions(pattern, prefix)[i]),
    decreases pattern.len() - prefix.len(), ALPHABET_LEN + 1,
{
    if prefix.len() < pattern.len() {
        match pattern[prefix.len() as int] {
            Some(code) => {
                lemma_completions_sound(pattern, prefix.push(code), i);
                lemma_below_parent(pattern, prefix, code, completions(pattern, prefix)[i]);
            },
            None => {
                lemma_choices_sound(pattern, prefix, ALPHABET_LEN as nat, i);
            },
        }
    }
}

proof fn lemma_choices_sound(pattern: Seq<Option<u8>>, prefix: Seq<u8>, n: nat, i: int)
    requires
        prefix.len() < pattern.len(),
        pattern[prefix.len() as int] is None,
        n <= ALPHABET_LEN,
        0 <= i < choices(pattern, prefix, n).len(),
    ensures
        below(pattern, prefix, choices(pattern, prefix, n)[i]),
        emitted(choices(pattern, prefix, n)[i]),
        choices(pattern, prefix, n)[i][prefix.len() as int] < n,
    decreases pattern.len() - prefix.len(), n,
{
    let earlier = choices(pattern, prefix, (n - 1) as nat);
    if i < earlier.len() {
        lemma_choices_sound(pattern, prefix, (n - 1) as nat, i);
    } else {
        let code = (n - 1) as u8;
        let child = prefix.push(code);
        lemma_completions_sound(pattern, child, i - earlier.len());
        lemma_below_parent(pattern, prefix, code, choices(pattern, prefix, n)[i]);
        assert(choices(pattern, prefix, n)[i][prefix.len() as int] == child[prefix.len() as int]);
    }
}

/// What lies below a child lies below its parent, where the child's symbol
/// fills its position.
proof fn lemma_below_parent(pattern: Seq<Option<u8>>, prefix: Seq<u8>, code: u8, cand: Seq<u8>)
    requires
        prefix.len() < pattern.len(),
        fills(pattern[prefix.len() as int], code),
        below(pattern, prefix.push(code), cand),
    ensures
        below(pattern, prefix, cand),
{
    let child = prefix.push(code);
    assert(cand[prefix.len() as int] == child[prefix.len() as int]);
    assert forall|i: int| 0 <= i < prefix.len() implies prefix[i] == cand[i] by {
        assert(child[i] == cand[i]);
    }
}

/// An emitted candidate that lies below a node is among what is emitted
/// there.
proof fn lemma_completions_complete(pattern: Seq<Option<u8>>, prefix: Seq<u8>, cand: Seq<u8>)
    requires
        prefix.len() <= pattern.len(),
        below(pattern, prefix, cand),
        emitted(cand),
    ensures
        completions(pattern, prefix).contains(cand),
    decreases pattern.len() - prefix.len(),
{
    if prefix.len() >= pattern.len() {
        assert(prefix == cand);
        assert(seq![prefix][0] == cand);
    } else {
        let code = cand[prefix.len() as int];
        let child = prefix.push(code);
        assert(fills(pattern[prefix.len() as int], code));
        assert(child.is_prefix_of(cand));
        lemma_completions_complete(pattern, child, cand);
        if pattern[prefix.len() as int] is None {
            lemma_choices_hold(pattern, prefix, ALPHABET_LEN as nat, code, cand);
        }
    }
}

/// What is emitted for one symbol is part of what is emitted for the
/// symbols up to a later one.
proof fn lemma_choices_hold(
    pattern: Seq<Option<u8>>,
    prefix: Seq<u8>,
    n: nat,
    code: u8,
    cand: Seq<u8>,
)
    requires
        prefix.len() < pattern.len(),
        code < n,
        completions(pattern, prefix.push(code)).contains(cand),
    ensures
        choices(pattern, prefix, n).contains(cand),
    decreases n,
{
    let earlier = choices(pattern, prefix, (n - 1) as nat);
    let last = completions(pattern, prefix.push((n - 1) as u8));
    if code == n - 1 {
        let j = choose|j: int| 0 <= j < last.len() && last[j] == cand;
        assert((earlier + last)[earlier.len() + j] == cand);
    } else {
        lemma_choices_hold(pattern, prefix, (n - 1) as nat, code, cand);
        let j = choose|j: int| 0 <= j < earlier.len() && earlier[j] == cand;
        assert((earlier + last)[j] == cand);
    }
}

/// Whether `a` comes before `b` in the order of the search: at the first
/// position where they differ, `a` has the smaller code.
pub open spec fn comes_before(a: Seq<u8>, b: Seq<u8>) -> bool {
    exists|k: int|
        0 <= k < a.len() && k < b.len() && #[trigger] a.take(k) == b.take(k) && a[k] < b[k]
}

/// What is emitted below a node is emitted in ascending order.
proof fn lemma_completions_ascending(
    pattern: Seq<Option<u8>>,
    prefix: Seq<u8>,
    i: int,
    j: int,
)
    requires
        prefix.len() <= pattern.len(),
        0 <= i < j < completions(pattern, prefix).len(),
    ensures
        comes_before(completions(pattern, prefix)[i], completions(pattern, prefix)[j]),
    decreases pattern.len() - prefix.len(), ALPHABET_LEN + 1,
{
    if prefix.len() < pattern.len() {
        match pattern[prefix.len() as int] {
            Some(code) => {
                lemma_completions_ascending(pattern, prefix.push(code), i, j);
            },
            None => {
                lemma_choices_ascending(pattern, prefix, ALPHABET_LEN as nat, i, j);
            },
        }
    }
}

proof fn lemma_choices_ascending(
    pattern: Seq<Option<u8>>,
    prefix: Seq<u8>,
    n: nat,
    i: int,
    j: int,
)
    requires
        prefix.len() < pattern.len(),
        pattern[prefix.len() as int] is None,
        n <= ALPHABET_LEN,
        0 <= i < j < choices(pattern, prefix, n).len(),
    ensures
        comes_before(choices(pattern, prefix, n)[i], choices(pattern, prefix, n)[j]),
    decreases pattern.len() - prefix.len(), n,
{
    let earlier = choices(pattern, prefix, (n - 1) as nat);
    let child = prefix.push((n - 1) as u8);
    if j < earlier.len() {
        lemma_choices_ascending(pattern, prefix, (n - 1) as nat, i, j);
    } else if i >= earlier.len() {
        lemma_completions_ascending(pattern, child, i - earlier.len(), j - earlier.len());
    } else {
        let a = choices(pattern, prefix, n)[i];
        let b = choices(pattern, prefix, n)[j];
        let k = prefix.len() as int;
        lemma_choices_sound(pattern, prefix, (n - 1) as nat, i);
        lemma_completions_sound(pattern, child, j - earlier.len());
        assert(b[k] == child[k]);
        assert(a.take(k) == prefix);
        assert forall|m: int| 0 <= m < k implies b[m] == prefix[m] by {
            assert(b[m] == child[m]);
        }
        assert(b.take(k) == prefix);
    }
}

/// The search finds its passwords in ascending order, so that none comes
/// twice.
pub proof fn lemma_generated_ascending(
    pattern: Seq<Option<u8>>,
    count_max: nat,
    i: int,
    j: int,
)
    requires
        0 <= i < j < generate_spec(pattern, count_max).len(),
    ensures
        comes_before(generate_spec(pattern, count_max)[i], generate_spec(pattern, count_max)[j]),
{
    let all = completions(pattern, Seq::empty());
    assert(generate_spec(pattern, count_max)[i] == all[i]);
    assert(generate_spec(pattern, count_max)[j] == all[j]);
    lemma_completions_ascending(pattern, Seq::empty(), i, j);
}

/// With a cap of zero the search finds nothing.
pub proof fn lemma_cap_zero(pattern: Seq<Option<u8>>)
    ensures
        generate_spec(pattern, 0) == Seq::<Seq<u8>>::empty(),
{
    assert(completions(pattern, Seq::empty()).take(0) == Seq::<Seq<u8>>::empty());
}

/// The search finds at most `count_max` passwords. Each of them fills the
/// pattern, has a second symbol that is not ruled out, and a checksum that
/// agrees.
pub proof fn lemma_generated_sound(pattern: Seq<Option<u8>>, count_max: nat)
    ensures
        generate_spec(pattern, count_max).len() <= count_max,
        forall|i: int|
            0 <= i < generate_spec(pattern, count_max).len() ==> {
                let found = #[trigger] generate_spec(pattern, count_max)[i];
                admits(pattern, found) && emitted(found) && checksum_ok(found)
            },
{
    let all = completions(pattern, Seq::empty());
    assert forall|i: int| 0 <= i < generate_spec(pattern, count_max).len() implies {
        let found = #[trigger] generate_spec(pattern, count_max)[i];
        admits(pattern, found) && emitted(found) && checksum_ok(found)
    } by {
        assert(generate_spec(pattern, count_max)[i] == all[i]);
        lemma_completions_sound(pattern, Seq::empty(), i);
    }
}

/// What the search finds for a pattern is made like a password: of as many
/// symbols as the pattern has positions, each of the alphabet.
pub proof fn lemma_generated_well_formed(pattern: Seq<Option<u8>>, count_max: nat)
    requires
        pattern_wf(pattern),
    ensures
        forall|i: int|
            0 <= i < generate_spec(pattern, count_max).len() ==> password_wf(
                #[trigger] generate_spec(pattern, count_max)[i],
            ),
{
    lemma_generated_sound(pattern, count_max);
    assert forall|i: int| 0 <= i < generate_spec(pattern, count_max).len() implies password_wf(
        #[trigger] generate_spec(pattern, count_max)[i],
    ) by {
        let found = generate_spec(pattern, count_max)[i];
        assert forall|j: int| 0 <= j < found.len() implies #[trigger] found[j]
            < ALPHABET_LEN by {
            assert(fills(pattern[j], found[j]));
        }
    }
}

/// Where the search stops short of its cap, it has found every candidate
/// that fills the pattern, has a second symbol that is not ruled out, and a
/// checksum that agrees.
pub proof fn lemma_generated_complete(pattern: Seq<Option<u8>>, count_max: nat, cand: Seq<u8>)
    requires
        generate_spec(pattern, count_max).len() < count_max,
        admits(pattern, cand),
        emitted(cand),
    ensures
        generate_spec(pattern, count_max).contains(cand),
{
    assert(Seq::<u8>::empty().is_prefix_of(cand));
    lemma_completions_complete(pattern, Seq::empty(), cand);
}

/// A pattern whose second position holds a symbol that is ruled out there
/// admits no password, whatever the cap and the wildcards.
pub proof fn lemma_second_fixed_invalid(pattern: Seq<Option<u8>>, count_max: nat)
    requires
        pattern.len() >= 2,
        pattern[1] matches Some(code) && second_char_invalid(code),
    ensures
        generate_spec(pattern, count_max) == Seq::<Seq<u8>>::empty(),
{
    lemma_generated_sound(pattern, count_max);
    if generate_spec(pattern, count_max).len() > 0 {
        let found = generate_spec(pattern, count_max)[0];
        assert(fills(pattern[1], found[1]));
    }
}

/// Two searches of one pattern with one cap find the same passwords in the
/// same order.
pub proof fn lemma_same_search(
    first: Seq<Password>,
    second: Seq<Password>,
    pattern: Seq<Option<u8>>,
    count_max: nat,
)
    requires
        passwords_view(first) == generate_spec(pattern, count_max),
        passwords_view(second) == generate_spec(pattern, count_max),
    ensures
        first.len() == second.len(),
        forall|i: int| 0 <= i < first.len() ==> (#[trigger] first[i])@ == second[i]@,
{
    assert(first.len() == passwords_view(first).len());
    assert(second.len() == passwords_view(second).len());
    assert forall|i: int| 0 <= i < first.len() implies (#[trigger] first[i])@ == second[i]@ by {
        assert(passwords_view(first)[i] == first[i]@);
        assert(passwords_view(second)[i] == second[i]@);
    }
}

/// Once the cap is reached, nothing more is kept.
proof fn lemma_truncate_full(found: Seq<Seq<u8>>, more: Seq<Seq<u8>>, n: nat)
    requires
        found.len() == n,
    ensures
        truncate(found + more, n) == found,
{
    assert((found + more).take(n as int) == found);
}

/// Truncating in two steps is truncating once.
proof fn lemma_truncate_twice(found: Seq<Seq<u8>>, a: Seq<Seq<u8>>, b: Seq<Seq<u8>>, n: nat)
    ensures
        truncate(truncate(found + a, n) + b, n) == truncate(found + (a + b), n),
{
    let fa = found + a;
    assert(found + (a + b) == fa + b);
    if fa.len() <= n {
    } else {
        assert((fa.take(n as int) + b).take(n as int) == fa.take(n as int));
        assert((fa + b).take(n as int) == fa.take(n as int));
    }
}

/// The symbols tried first give the results found first.
proof fn lemma_choices_prefix(pattern: Seq<Option<u8>>, prefix: Seq<u8>, k: nat, n: nat)
    requires
        k <= n,
    ensures
        choices(pattern, prefix, k).is_prefix_of(choices(pattern, prefix, n)),
    decreases n,
{
    if prefix.len() < pattern.len() && k < n {
        lemma_choices_prefix(pattern, prefix, k, (n - 1) as nat);
    }
}

/// What fills the cap is not changed by what would come later.
proof fn lemma_truncate_prefix(found: Seq<Seq<u8>>, a: Seq<Seq<u8>>, b: Seq<Seq<u8>>, n: nat)
    requires
        a.is_prefix_of(b),
        truncate(found + a, n).len() == n,
    ensures
        truncate(found + b, n) == truncate(found + a, n),
{
    assert((found + b).take(n as int) == (found + a).take(n as int));
}

/// The state of one search.
struct Solver<'a> {
    pattern: &'a Pattern,
    count_max: usize,
    passwords: Vec<Password>,
    chars: Vec<Symbol>,
}

impl<'a> Solver<'a> {
    /// The passwords found so far.
    spec fn found(&self) -> Seq<Seq<u8>> {
        passwords_view(self.passwords@)
    }

    /// The codes of the symbols chosen so far.
    spec fn path(&self) -> Seq<u8> {
        codes_of(self.chars@)
    }

    /// The search is within its cap, at a node of the pattern that was not
    /// cut off.
    spec fn wf(&self) -> bool {
        &&& self.chars@.len() <= self.pattern@.len()
        &&& self.passwords@.len() <= self.count_max
        &&& self.chars@.len() > 2 ==> !second_char_invalid(self.path()[1])
    }

    fn new(pattern: &'a Pattern, count_max: usize) -> (solver: Solver<'a>)
        ensures
            solver.wf(),
            solver.pattern == pattern,
            solver.count_max == count_max,
            solver.found() == Seq::<Seq<u8>>::empty(),
            solver.path() == Seq::<u8>::empty(),
    {
        Solver { pattern, count_max, passwords: Vec::new(), chars: Vec::new() }
    }

    /// Searches below the current node. The symbols chosen so far are the
    /// same afterwards.
    fn dfs(&mut self)
        requires
            old(self).wf(),
        ensures
            final(self).wf(),
            final(self).pattern == old(self).pattern,
            final(self).count_max == old(self).count_max,
            final(self).chars@ == old(self).chars@,
            final(self).found() == truncate(
                old(self).found() + completions(old(self).pattern@, old(self).path()),
                old(self).count_max as nat,
            ),
        decreases old(self).pattern@.len() - old(self).chars@.len(),
    {
        let ghost pattern = self.pattern@;
        let ghost prefix = self.path();
        let ghost found = self.found();
        let ghost cap = self.count_max as nat;

        if self.passwords.len() >= self.count_max {
            proof {
                lemma_truncate_full(found, completions(pattern, prefix), cap);
            }
            return;
        }
        let pos = self.chars.len();
        let slots = self.pattern.as_slice();

        if pos == 2 && Password::is_invalid_second_char(self.chars[1]) {
            proof {
                lemma_pruned(pattern, prefix);
                assert(found + completions(pattern, prefix) == found);
            }
            return;
        }
        assert(slots_of(slots@).len() == slots@.len());
        if pos == slots.len() {
            let password = Password::new(self.chars.as_slice()).unwrap();
            assert(completions(pattern, prefix) == if emitted(prefix) {
                seq![prefix]
            } else {
                Seq::empty()
            });
            if password.is_valid() {
                let ghost before = self.passwords@;
                self.passwords.push(password);
                assert(passwords_view(before.push(password)) == passwords_view(before).push(
                    password@,
                ));
                assert(self.found() == found + seq![prefix]);
            } else {
                assert(found + Seq::<Seq<u8>>::empty() == found);
            }
            return;
        }
        match slots[pos] {
            PatternChar::Password(pc) => {
                self.chars.push(pc);
                assert(self.path() == prefix.push(pc@));
                self.dfs();
                self.chars.pop();
            },
            PatternChar::Any => {
                let all = Symbol::all();
                proof {
                    assert(found + choices(pattern, prefix, 0) == found);
                }
                for k in 0..ALPHABET_LEN
                    invariant
                        self.wf(),
                        self.pattern == old(self).pattern,
                        self.count_max == old(self).count_max,
                        self.chars@ == old(self).chars@,
                        pattern == old(self).pattern@,
                        prefix == old(self).path(),
                        found == old(self).found(),
                        cap == old(self).count_max,
                        prefix.len() < pattern.len(),
                        pattern[prefix.len() as int] is None,
                        prefix.len() >= 2 ==> !second_char_invalid(prefix[1]),
                        forall|i: int| 0 <= i < ALPHABET_LEN ==> (#[trigger] all[i])@ == i,
                        self.found() == truncate(found + choices(pattern, prefix, k as nat), cap),
                    decreases ALPHABET_LEN - k,
                {
                    let pc = all[k];
                    self.chars.push(pc);
                    assert(self.path() == prefix.push(k as u8));
                    self.dfs();
                    self.chars.pop();
                    proof {
                        lemma_truncate_twice(
                            found,
                            choices(pattern, prefix, k as nat),
                            completions(pattern, prefix.push(k as u8)),
                            cap,
                        );
                    }
                    if self.passwords.len() >= self.count_max {
                        proof {
                            let tried = choices(pattern, prefix, (k + 1) as nat);
                            let all = choices(pattern, prefix, ALPHABET_LEN as nat);
                            lemma_choices_prefix(
                                pattern,
                                prefix,
                                (k + 1) as nat,
                                ALPHABET_LEN as nat,
                            );
                            assert(self.found().len() == self.passwords@.len());
                            lemma_truncate_prefix(found, tried, all, cap);
                        }
                        return;
                    }
                }
            },
        }
    }
}

/// Every password that the pattern admits and the codec accepts, in the
/// order of the search, up to `count_max` of them.
pub fn generate_passwords(pattern: &Pattern, count_max: usize) -> (r: Vec<Password>)
    ensures
        passwords_view(r@) == generate_spec(pattern@, count_max as nat),
        r@.len() <= count_max,
        forall|i: int| 0 <= i < r@.len() ==> password_wf((#[trigger] r@[i])@),
{
    let mut solver = Solver::new(pattern, count_max);
    solver.dfs();

    proof {
        let found = solver.passwords@;
        use_type_invariant(pattern);
        lemma_generated_well_formed(pattern@, count_max as nat);
        assert(passwords_view(found).len() == found.len());
        assert forall|i: int| 0 <= i < found.len() implies password_wf((#[trigger] found[i])@) by {
            assert(generate_spec(pattern@, count_max as nat)[i] == found[i]@);
        }
    }
    solver.passwords
}

} // verus!
