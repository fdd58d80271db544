//! The cryptarithm `ISA + ROA = TELO` solved by plain enumeration: letters
//! take distinct digits in a fixed order, the leading letters never zero,
//! and every full assignment whose sum holds is a solution.
use vstd::prelude::*;

use crate::dsl::{isa_leading, isa_letters};
use crate::names::{
    assoc_has, assoc_map, keys_unique, lemma_assoc_index, lemma_assoc_push, lemma_assoc_remove,
    lemma_assoc_update,
};
use crate::text::str_chars;

verus! {

/// A digit for each letter.
#[derive(Debug)]
pub struct DigitMap {
    entries: Vec<(char, u8)>,
}

impl DigitMap {
    #[verifier::type_invariant]
    closed spec fn wf(&self) -> bool {
        keys_unique(self.entries@)
    }
}

impl View for DigitMap {
    type V = Map<char, u8>;

    closed spec fn view(&self) -> Map<char, u8> {
        assoc_map(self.entries@)
    }
}

impl DigitMap {
    /// The map that gives no letter a digit.
    pub fn new() -> (r: Self)
        ensures
            r@ == Map::<char, u8>::empty(),
    {
        let r = DigitMap { entries: Vec::new() };
        assert(r@ =~= Map::<char, u8>::empty());
        r
    }

    fn find(&self, key: char) -> (r: Option<usize>)
        ensures
            match r {
                Some(i) => i < self.entries@.len() && self.entries@[i as int].0 == key
                    && self@.contains_key(key) && self@[key] == self.entries@[i as int].1,
                None => !self@.contains_key(key),
            },
    {
        proof {
            use_type_invariant(self);
        }
        let mut i: usize = 0;
        while i < self.entries.len()
            invariant
                i <= self.entries@.len(),
                keys_unique(self.entries@),
                forall|j: int| 0 <= j < i ==> self.entries@[j].0 != key,
            decreases self.entries@.len() - i,
        {
            if self.entries[i].0 == key {
                proof {
                    lemma_assoc_index(self.entries@, i as int);
                }
                return Some(i);
            }
            i += 1;
        }
        proof {
            if self@.contains_key(key) {
                let j = choose|j: int|
                    0 <= j < self.entries@.len() && #[trigger] self.entries@[j].0 == key;
            }
        }
        None
    }

    /// The digit of `key`, if it has one.
    pub fn get(&self, key: char) -> (r: Option<u8>)
        ensures
            r == (if self@.contains_key(key) {
                Some(self@[key])
            } else {
                None
            }),
    {
        match self.find(key) {
            Some(i) => Some(self.entries[i].1),
            None => None,
        }
    }

    /// Gives `key` the digit `digit`, replacing any digit it had.
    pub fn insert(&mut self, key: char, digit: u8)
        ensures
            final(self)@ == old(self)@.insert(key, digit),
    {
        proof {
            use_type_invariant(&*self);
        }
        match self.find(key) {
            Some(i) => {
                let ghost p = self.entries@;
                proof {
                    lemma_assoc_update(p, i as int, digit);
                }
                let mut e: Vec<(char, u8)> = Vec::new();
                std::mem::swap(&mut e, &mut self.entries);
                e.set(i, (key, digit));
                self.entries = e;
                assert(self.entries@ =~= p.update(i as int, (p[i as int].0, digit)));
            },
            None => {
                let ghost p = self.entries@;
                proof {
                    assert(!assoc_has(p, key));
                    lemma_assoc_push(p, key, digit);
                }
                let mut e: Vec<(char, u8)> = Vec::new();
                std::mem::swap(&mut e, &mut self.entries);
                e.push((key, digit));
                self.entries = e;
                assert(self.entries@ =~= p.push((key, digit)));
            },
        }
    }

    /// Takes the digit of `key` away, if it has one.
    pub fn remove(&mut self, key: char)
        ensures
            final(self)@ == old(self)@.remove(key),
    {
        proof {
            use_type_invariant(&*self);
        }
        match self.find(key) {
            Some(i) => {
                let ghost p = self.entries@;
                proof {
                    lemma_assoc_remove(p, i as int);
                }
                let mut e: Vec<(char, u8)> = Vec::new();
                std::mem::swap(&mut e, &mut self.entries);
                let _ = e.remove(i);
                self.entries = e;
                assert(self.entries@ =~= p.remove(i as int));
            },
            None => {
                assert(old(self)@.remove(key) =~= old(self)@);
            },
        }
    }

    /// The letters and their digits, each letter once.
    pub fn to_pairs(&self) -> (r: Vec<(char, u8)>)
        ensures
            keys_unique(r@),
            assoc_map(r@) == self@,
    {
        proof {
            use_type_invariant(self);
        }
        let mut r: Vec<(char, u8)> = Vec::new();
        let mut i: usize = 0;
        while i < self.entries.len()
            invariant
                i <= self.entries@.len(),
                r@ == self.entries@.take(i as int),
            decreases self.entries@.len() - i,
        {
            let (c, d) = self.entries[i];
            r.push((c, d));
            i += 1;
            assert(r@ =~= self.entries@.take(i as int));
        }
        assert(self.entries@.take(self.entries@.len() as int) =~= self.entries@);
        r
    }

    /// A copy of this map.
    pub fn duplicate(&self) -> (r: Self)
        ensures
            r@ == self@,
    {
        proof {
            use_type_invariant(self);
        }
        DigitMap { entries: self.to_pairs() }
    }
}

/// The number whose decimal digits are the digits of the word's letters, in
/// order.
pub open spec fn word_number(w: Seq<char>, m: Map<char, u8>) -> int
    decreases w.len(),
{
    if w.len() == 0 {
        0
    } else {
        word_number(w.drop_last(), m) * 10 + m[w.last()]
    }
}

/// The number of a prefix of a word is at most that of the word.
proof fn lemma_prefix_number(w: Seq<char>, m: Map<char, u8>, i: int)
    requires
        0 <= i <= w.len(),
    ensures
        0 <= word_number(w.take(i), m) <= word_number(w, m),
    decreases w.len(),
{
    if w.len() > 0 {
        if i == w.len() {
            assert(w.take(i) =~= w);
            lemma_prefix_number(w.drop_last(), m, i - 1);
        } else {
            lemma_prefix_number(w.drop_last(), m, i);
            assert(w.drop_last().take(i) =~= w.take(i));
        }
        lemma_prefix_number(w.drop_last(), m, w.len() - 1);
        assert(w.drop_last().take(w.len() - 1) =~= w.drop_last());
    }
}

/// The value of `word` read as a number, each letter standing for its digit
/// in `map`.
pub fn word_value(word: &str, map: &DigitMap) -> (r: u32)
    requires
        forall|i: int| 0 <= i < word@.len() ==> map@.contains_key(#[trigger] word@[i]),
        word_number(word@, map@) <= u32::MAX,
    ensures
        r == word_number(word@, map@),
{
    let chars = str_chars(word);
    let mut acc: u32 = 0;
    let mut i: usize = 0;
    while i < chars.len()
        invariant
            i <= chars@.len(),
            chars@ == word@,
            forall|j: int| 0 <= j < word@.len() ==> map@.contains_key(#[trigger] word@[j]),
            word_number(word@, map@) <= u32::MAX,
            acc == word_number(chars@.take(i as int), map@),
        decreases chars@.len() - i,
    {
        let c = chars[i];
        assert(map@.contains_key(word@[i as int]));
        let d: u8 = match map.get(c) {
            Some(d) => d,
            None => 0,
        };
        proof {
            assert(chars@.take(i + 1).drop_last() =~= chars@.take(i as int));
            lemma_prefix_number(word@, map@, i + 1);
        }
        acc = acc * 10 + d as u32;
        i += 1;
    }
    assert(chars@.take(chars@.len() as int) =~= chars@);
    acc
}

/// `ISA + ROA = TELO` holds for the digits of `m`.
pub open spec fn isa_sum_holds(m: Map<char, u8>) -> bool {
    word_number(seq!['I', 'S', 'A'], m) + word_number(seq!['R', 'O', 'A'], m) == word_number(
        seq!['T', 'E', 'L', 'O'],
        m,
    )
}

/// Whether the digits of `map` make `ISA + ROA = TELO` true.
pub fn valid_solution(map: &DigitMap) -> (r: bool)
    requires
        forall|i: int| 0 <= i < 8 ==> map@.contains_key(#[trigger] isa_letters()[i]),
    ensures
        r == isa_sum_holds(map@),
{
    let ghost m = map@;
    proof {
        reveal_strlit("ISA");
        reveal_strlit("ROA");
        reveal_strlit("TELO");
        assert(m.contains_key(isa_letters()[0]) && m.contains_key(isa_letters()[1]) && m.contains_key(
            isa_letters()[2],
        ) && m.contains_key(isa_letters()[3]) && m.contains_key(isa_letters()[4])
            && m.contains_key(isa_letters()[5]) && m.contains_key(isa_letters()[6])
            && m.contains_key(isa_letters()[7]));
        reveal_with_fuel(word_number, 5);
        assert(word_number("ISA"@, m) <= 255 * 111);
        assert(word_number("ROA"@, m) <= 255 * 111);
        assert(word_number("TELO"@, m) <= 255 * 1111);
    }
    let isa = word_value("ISA", map);
    let roa = word_value("ROA", map);
    let telo = word_value("TELO", map);
    isa + roa == telo
}

/// The letter at position `i` of the enumeration order.
proof fn lemma_letter_at(i: int)
    requires
        0 <= i < 8,
    ensures
        isa_letters()[i] == (if i == 0 {
            'I'
        } else if i == 1 {
            'S'
        } else if i == 2 {
            'A'
        } else if i == 3 {
            'R'
        } else if i == 4 {
            'O'
        } else if i == 5 {
            'T'
        } else if i == 6 {
            'E'
        } else {
            'L'
        }),
{
}

/// Letter `c` is among the first `k` letters of the enumeration order.
pub open spec fn in_prefix(c: char, k: int) -> bool {
    exists|j: int| 0 <= j < k && #[trigger] isa_letters()[j] == c
}

/// `a` gives digits to exactly the first `k` letters of the order: digits
/// below 10, a different digit to each letter, and none of `I`, `R`, `T`
/// zero.
pub open spec fn partial_ok(a: Map<char, u8>, k: int) -> bool {
    &&& 0 <= k <= 8
    &&& forall|c: char|
        #![trigger a.contains_key(c)]
        #![trigger in_prefix(c, k)]
        a.contains_key(c) <==> in_prefix(c, k)
    &&& forall|c: char| #[trigger] a.contains_key(c) ==> a[c] < 10 && (isa_leading(c) ==> a[c] != 0)
    &&& forall|c1: char, c2: char|
        #[trigger] a.contains_key(c1) && #[trigger] a.contains_key(c2) && c1 != c2 ==> a[c1]
            != a[c2]
}

/// A solution of `ISA + ROA = TELO`: all eight letters have distinct digits,
/// no leading zero, and the sum holds.
pub open spec fn is_isa_solution(m: Map<char, u8>) -> bool {
    partial_ok(m, 8) && isa_sum_holds(m)
}

/// Some letter of `a` has the digit `d`.
pub open spec fn digit_taken(a: Map<char, u8>, d: int) -> bool {
    exists|c: char| a.contains_key(c) && a[c] == d
}

/// `used` marks exactly the digits that letters of `a` hold.
pub open spec fn used_matches(used: Seq<bool>, a: Map<char, u8>) -> bool {
    &&& used.len() == 10
    &&& forall|d: int| 0 <= d < 10 ==> (#[trigger] used[d] <==> digit_taken(a, d))
}

/// `m1` comes before `m2` when their digits are read letter by letter in
/// the enumeration order.
pub open spec fn digits_before(m1: Map<char, u8>, m2: Map<char, u8>) -> bool {
    exists|p: int|
        0 <= p < 8 && (forall|q: int|
            0 <= q < p ==> m1[#[trigger] isa_letters()[q]] == m2[isa_letters()[q]]) && m1[isa_letters()[p]]
            < m2[isa_letters()[p]]
}

/// `s` lists, each once and in increasing order of digits, exactly the maps
/// that satisfy `p`.
pub open spec fn lists_exactly(s: Seq<Map<char, u8>>, p: spec_fn(Map<char, u8>) -> bool) -> bool {
    &&& forall|k: int| 0 <= k < s.len() ==> p(#[trigger] s[k])
    &&& forall|m: Map<char, u8>| #[trigger] p(m) ==> s.contains(m)
    &&& forall|k1: int, k2: int|
        0 <= k1 < k2 < s.len() ==> digits_before(#[trigger] s[k1], #[trigger] s[k2])
}

/// The solutions that extend `a`.
pub open spec fn solutions_from(a: Map<char, u8>) -> spec_fn(Map<char, u8>) -> bool {
    |m: Map<char, u8>| is_isa_solution(m) && a.submap_of(m)
}

/// The solutions that extend `a` and give letter `l` a digit below `d`.
pub open spec fn solutions_below(a: Map<char, u8>, l: char, d: int) -> spec_fn(Map<char, u8>) -> bool {
    |m: Map<char, u8>| is_isa_solution(m) && a.submap_of(m) && m[l] < d
}

/// The maps that a list of digit maps holds.
pub open spec fn digit_views(s: Seq<DigitMap>) -> Seq<Map<char, u8>> {
    s.map_values(|d: DigitMap| d@)
}

proof fn lemma_from_at(a: Map<char, u8>, m: Map<char, u8>)
    ensures
        solutions_from(a)(m) == (is_isa_solution(m) && a.submap_of(m)),
{
}

proof fn lemma_below_at(a: Map<char, u8>, l: char, d: int, m: Map<char, u8>)
    ensures
        solutions_below(a, l, d)(m) == (is_isa_solution(m) && a.submap_of(m) && m[l] < d),
{
}

proof fn lemma_submap_at(a: Map<char, u8>, m: Map<char, u8>, c: char)
    requires
        a.submap_of(m),
        a.contains_key(c),
    ensures
        m.contains_key(c),
        m[c] == a[c],
{
    if m.dom().contains(c) {
    }
}

proof fn lemma_next_letter(a: Map<char, u8>, index: int, d: int)
    requires
        partial_ok(a, index),
        index < 8,
        0 <= d < 10,
        !digit_taken(a, d),
        !(d == 0 && isa_leading(isa_letters()[index])),
    ensures
        !a.contains_key(isa_letters()[index]),
        partial_ok(a.insert(isa_letters()[index], d as u8), index + 1),
{
    let l = isa_letters()[index];
    let a2 = a.insert(l, d as u8);
    lemma_letter_at(index);
    assert(!in_prefix(l, index)) by {
        if in_prefix(l, index) {
            let j = choose|j: int| 0 <= j < index && #[trigger] isa_letters()[j] == l;
            lemma_letter_at(j);
        }
    }
    assert forall|c: char|
        #![trigger a2.contains_key(c)]
        #![trigger in_prefix(c, index + 1)]
        a2.contains_key(c) <==> in_prefix(c, index + 1) by {
        if in_prefix(c, index + 1) {
            let j = choose|j: int| 0 <= j < index + 1 && #[trigger] isa_letters()[j] == c;
            if j < index {
                assert(in_prefix(c, index));
            }
        }
        if a.contains_key(c) {
            assert(in_prefix(c, index));
            let j = choose|j: int| 0 <= j < index && #[trigger] isa_letters()[j] == c;
            assert(in_prefix(c, index + 1));
        }
        if c == l {
            assert(isa_letters()[index] == c);
        }
    }
    assert forall|c1: char, c2: char|
        #[trigger] a2.contains_key(c1) && #[trigger] a2.contains_key(c2) && c1 != c2 implies a2[c1]
        != a2[c2] by {
        if c1 == l && a.contains_key(c2) {
            assert(!(a[c2] == d));
        }
        if c2 == l && a.contains_key(c1) {
            assert(!(a[c1] == d));
        }
    }
}

proof fn lemma_used_insert(used: Seq<bool>, a: Map<char, u8>, l: char, d: int)
    requires
        used_matches(used, a),
        !a.contains_key(l),
        0 <= d < 10,
    ensures
        used_matches(used.update(d, true), a.insert(l, d as u8)),
{
    let a2 = a.insert(l, d as u8);
    let u2 = used.update(d, true);
    assert forall|e: int| 0 <= e < 10 implies (#[trigger] u2[e] <==> digit_taken(a2, e)) by {
        if e == d {
            assert(a2.contains_key(l) && a2[l] == d);
        } else {
            if digit_taken(a2, e) {
                let c = choose|c: char| a2.contains_key(c) && a2[c] == e;
                assert(c != l);
                assert(a.contains_key(c) && a[c] == e);
            }
            if digit_taken(a, e) {
                let c = choose|c: char| a.contains_key(c) && a[c] == e;
                assert(a2.contains_key(c) && a2[c] == e);
            }
        }
    }
}

/// A digit that is taken, or a zero for a leading letter, gives no
/// solution: the list for the digits below it is the list for the digits up
/// to it.
proof fn lemma_skip_digit(s: Seq<Map<char, u8>>, a: Map<char, u8>, index: int, d: int)
    requires
        partial_ok(a, index),
        index < 8,
        0 <= d < 10,
        digit_taken(a, d) || (d == 0 && isa_leading(isa_letters()[index])),
        lists_exactly(s, solutions_below(a, isa_letters()[index], d)),
    ensures
        lists_exactly(s, solutions_below(a, isa_letters()[index], d + 1)),
{
    let l = isa_letters()[index];
    assert(!a.contains_key(l)) by {
        lemma_letter_at(index);
        if a.contains_key(l) {
            let j = choose|j: int| 0 <= j < index && #[trigger] isa_letters()[j] == l;
            lemma_letter_at(j);
        }
    }
    assert forall|k: int| 0 <= k < s.len() implies solutions_below(a, l, d + 1)(#[trigger] s[k]) by {
        assert(solutions_below(a, l, d)(s[k]));
        lemma_below_at(a, l, d, s[k]);
        lemma_below_at(a, l, d + 1, s[k]);
    }
    assert forall|m: Map<char, u8>| #[trigger] solutions_below(a, l, d + 1)(m) implies s.contains(m) by {
        lemma_below_at(a, l, d, m);
        lemma_below_at(a, l, d + 1, m);
        assert(in_prefix(l, 8));
        assert(m.contains_key(l));
        if m[l] == d {
            if digit_taken(a, d) {
                let c = choose|c: char| a.contains_key(c) && a[c] == d;
                lemma_submap_at(a, m, c);
            }
        }
        assert(solutions_below(a, l, d)(m));
    }
}

/// The solutions with letter `l` below `d`, followed by those with `l`
/// equal to `d`, are the solutions with `l` below `d + 1`, in order.
proof fn lemma_append_digit(
    s1: Seq<Map<char, u8>>,
    s2: Seq<Map<char, u8>>,
    a: Map<char, u8>,
    index: int,
    d: int,
)
    requires
        partial_ok(a, index),
        index < 8,
        0 <= d < 10,
        !a.contains_key(isa_letters()[index]),
        lists_exactly(s1, solutions_below(a, isa_letters()[index], d)),
        lists_exactly(s2, solutions_from(a.insert(isa_letters()[index], d as u8))),
    ensures
        lists_exactly(s1 + s2, solutions_below(a, isa_letters()[index], d + 1)),
{
    let l = isa_letters()[index];
    let a2 = a.insert(l, d as u8);
    let s = s1 + s2;
    assert forall|k: int| 0 <= k < s.len() implies solutions_below(a, l, d + 1)(#[trigger] s[k]) by {
        lemma_below_at(a, l, d + 1, s[k]);
        if k < s1.len() {
            assert(s[k] == s1[k]);
            assert(solutions_below(a, l, d)(s1[k]));
            lemma_below_at(a, l, d, s1[k]);
        } else {
            assert(s[k] == s2[k - s1.len()]);
            assert(solutions_from(a2)(s2[k - s1.len()]));
            let m = s[k];
            lemma_from_at(a2, m);
            lemma_submap_at(a2, m, l);
            assert forall|c: char| #[trigger] a.dom().contains(c) implies m.dom().contains(c) && a[c]
                == m[c] by {
                lemma_submap_at(a2, m, c);
            }
        }
    }
    assert forall|m: Map<char, u8>| #[trigger] solutions_below(a, l, d + 1)(m) implies s.contains(m) by {
        lemma_below_at(a, l, d + 1, m);
        lemma_below_at(a, l, d, m);
        lemma_from_at(a2, m);
        if m[l] < d {
            assert(solutions_below(a, l, d)(m));
            let k = choose|k: int| 0 <= k < s1.len() && s1[k] == m;
            assert(s[k] == m);
        } else {
            assert(in_prefix(l, 8));
            assert(m.contains_key(l));
            assert forall|c: char| #[trigger] a2.dom().contains(c) implies m.dom().contains(c) && a2[c]
                == m[c] by {
                if c != l {
                    lemma_submap_at(a, m, c);
                }
            }
            assert(solutions_from(a2)(m));
            let k = choose|k: int| 0 <= k < s2.len() && s2[k] == m;
            assert(s[k + s1.len()] == m);
        }
    }
    assert forall|k1: int, k2: int| 0 <= k1 < k2 < s.len() implies digits_before(
        #[trigger] s[k1],
        #[trigger] s[k2],
    ) by {
        if k2 < s1.len() {
            assert(s[k1] == s1[k1] && s[k2] == s1[k2]);
        } else if k1 >= s1.len() {
            assert(s[k1] == s2[k1 - s1.len()] && s[k2] == s2[k2 - s1.len()]);
        } else {
            let x = s1[k1];
            let y = s2[k2 - s1.len()];
            assert(s[k1] == x && s[k2] == y);
            assert(solutions_below(a, l, d)(x));
            assert(solutions_from(a2)(y));
            lemma_below_at(a, l, d, x);
            lemma_from_at(a2, y);
            lemma_submap_at(a2, y, l);
            assert forall|q: int| 0 <= q < index implies x[#[trigger] isa_letters()[q]]
                == y[isa_letters()[q]] by {
                assert(in_prefix(isa_letters()[q], index));
                assert(a.contains_key(isa_letters()[q]));
                lemma_submap_at(a, x, isa_letters()[q]);
                lemma_submap_at(a2, y, isa_letters()[q]);
            }
            assert(x[l] < y[l]);
        }
    }
}

/// Gives the letters from position `index` on every digit that the rules
/// leave, in increasing order, and appends to `found` a copy of each full
/// assignment for which `ISA + ROA = TELO` holds.
///
/// On return `assignment` and `used` are as they were, and what was appended
/// lists exactly the solutions that extend `assignment`, in increasing order
/// of their digits read in the order of the letters.
pub fn solve(index: usize, assignment: &mut DigitMap, used: &mut [bool; 10], found: &mut Vec<DigitMap>)
    requires
        index <= 8,
        partial_ok(old(assignment)@, index as int),
        used_matches(old(used)@, old(assignment)@),
    ensures
        final(assignment)@ == old(assignment)@,
        final(used)@ == old(used)@,
        old(found)@.len() <= final(found)@.len(),
        final(found)@.take(old(found)@.len() as int) == old(found)@,
        lists_exactly(
            digit_views(final(found)@.skip(old(found)@.len() as int)),
            solutions_from(old(assignment)@),
        ),
    decreases 8 - index,
{
    let ghost a0 = assignment@;
    let ghost u0 = used@;
    let ghost f0 = found@;
    if index == 8 {
        assert forall|i: int| 0 <= i < 8 implies assignment@.contains_key(
            #[trigger] isa_letters()[i],
        ) by {
            assert(in_prefix(isa_letters()[i], 8));
        }
        if valid_solution(assignment) {
            let copy = assignment.duplicate();
            found.push(copy);
            proof {
                assert(found@.take(f0.len() as int) =~= f0);
                assert(digit_views(found@.skip(f0.len() as int)) =~= seq![a0]);
                assert forall|m: Map<char, u8>| #[trigger] solutions_from(a0)(m) implies seq![
                    a0,
                ].contains(m) by {
                    assert forall|c: char| #[trigger] m.contains_key(c) implies a0.contains_key(c) by {
                        assert(in_prefix(c, 8));
                    }
                    assert(m =~= a0);
                    assert(seq![a0][0] == m);
                }
            }
        } else {
            proof {
                assert(found@.take(f0.len() as int) =~= f0);
                assert(digit_views(found@.skip(f0.len() as int)) =~= Seq::<Map<char, u8>>::empty());
                assert forall|m: Map<char, u8>| #[trigger] solutions_from(a0)(m) implies Seq::<
                    Map<char, u8>,
                >::empty().contains(m) by {
                    assert forall|c: char| #[trigger] m.contains_key(c) implies a0.contains_key(c) by {
                        assert(in_prefix(c, 8));
                    }
                    assert(m =~= a0);
                }
            }
        }
        return;
    }
    let letters: [char; 8] = ['I', 'S', 'A', 'R', 'O', 'T', 'E', 'L'];
    assert(letters@ =~= isa_letters());
    let letter = letters[index];
    let mut digit: usize = 0;
    proof {
        assert(digit_views(found@.skip(f0.len() as int)) =~= Seq::<Map<char, u8>>::empty());
        assert(found@.take(f0.len() as int) =~= f0);
        assert forall|m: Map<char, u8>| #[trigger] solutions_below(a0, letter, 0)(m) implies Seq::<
            Map<char, u8>,
        >::empty().contains(m) by {}
    }
    while digit < 10
        invariant
            index < 8,
            letter == isa_letters()[index as int],
            digit <= 10,
            assignment@ == a0,
            used@ == u0,
            a0 == old(assignment)@,
            u0 == old(used)@,
            f0 == old(found)@,
            partial_ok(a0, index as int),
            used_matches(u0, a0),
            f0.len() <= found@.len(),
            found@.take(f0.len() as int) == f0,
            lists_exactly(
                digit_views(found@.skip(f0.len() as int)),
                solutions_below(a0, letter, digit as int),
            ),
        decreases 10 - digit,
    {
        let ghost s1 = digit_views(found@.skip(f0.len() as int));
        if used[digit] || (digit == 0 && (letter == 'I' || letter == 'R' || letter == 'T')) {
            proof {
                lemma_skip_digit(s1, a0, index as int, digit as int);
            }
        } else {
            proof {
                lemma_next_letter(a0, index as int, digit as int);
                lemma_used_insert(u0, a0, letter, digit as int);
            }
            assignment.insert(letter, digit as u8);
            used[digit] = true;
            let ghost f1 = found@;
            solve(index + 1, assignment, used, found);
            let ghost s2 = digit_views(found@.skip(f1.len() as int));
            used[digit] = false;
            assignment.remove(letter);
            proof {
                assert(used@ =~= u0);
                assert(assignment@ =~= a0);
                lemma_append_digit(s1, s2, a0, index as int, digit as int);
                assert(found@.take(f0.len() as int) =~= f0) by {
                    assert(found@.take(f0.len() as int) =~= found@.take(f1.len() as int).take(
                        f0.len() as int,
                    ));
                }
                assert(digit_views(found@.skip(f0.len() as int)) =~= s1 + s2) by {
                    assert(found@.skip(f0.len() as int) =~= f1.skip(f0.len() as int) + found@.skip(
                        f1.len() as int,
                    ));
                }
            }
        }
        digit += 1;
    }
    proof {
        let s = digit_views(found@.skip(f0.len() as int));
        assert forall|k: int| 0 <= k < s.len() implies solutions_from(a0)(#[trigger] s[k]) by {
            assert(solutions_below(a0, letter, 10)(s[k]));
        }
        assert forall|m: Map<char, u8>| #[trigger] solutions_from(a0)(m) implies s.contains(m) by {
            assert(in_prefix(letter, 8));
            assert(m.contains_key(letter));
            assert(solutions_below(a0, letter, 10)(m));
        }
    }
}

} // verus!
