//! Constraints: a scope of variable names, a label, and the relation that the
//! values of an assignment must satisfy.
use vstd::prelude::*;

use crate::names::Assignment;

verus! {

/// The characters of each name in a list.
pub open spec fn names_of(v: Seq<String>) -> Seq<Seq<char>> {
    v.map_values(|s: String| s@)
}

/// The characters of each name in a list of string slices.
pub open spec fn str_names_of(v: Seq<&str>) -> Seq<Seq<char>> {
    v.map_values(|s: &str| s@)
}

/// The name of the variable that stands for a letter.
pub open spec fn letter(c: char) -> Seq<char> {
    seq![c]
}

/// No two assigned names of the list hold the same value.
pub open spec fn all_distinct(names: Seq<Seq<char>>, a: Map<Seq<char>, i64>) -> bool {
    forall|i: int, j: int|
        0 <= i < j < names.len() && a.contains_key(names[i]) && a.contains_key(names[j])
            ==> #[trigger] a[names[i]] != #[trigger] a[names[j]]
}

/// Every letter of the word has a value.
pub open spec fn word_assigned(w: Seq<char>, a: Map<Seq<char>, i64>) -> bool {
    forall|i: int| 0 <= i < w.len() ==> #[trigger] a.contains_key(letter(w[i]))
}

/// Every word of the list has all its letters assigned.
pub open spec fn words_assigned(ws: Seq<Seq<char>>, a: Map<Seq<char>, i64>) -> bool {
    forall|k: int| 0 <= k < ws.len() ==> #[trigger] word_assigned(ws[k], a)
}

/// The decimal value of a word whose letters stand for digits, in 64-bit
/// two's-complement arithmetic that wraps on overflow.
pub open spec fn word_value(w: Seq<char>, a: Map<Seq<char>, i64>) -> i64
    decreases w.len(),
{
    if w.len() == 0 {
        0
    } else {
        word_value(w.drop_last(), a).wrapping_mul(10).wrapping_add(a[letter(w.last())])
    }
}

/// The sum of the values of the words, in wrapping 64-bit arithmetic.
pub open spec fn words_sum(ws: Seq<Seq<char>>, a: Map<Seq<char>, i64>) -> i64
    decreases ws.len(),
{
    if ws.len() == 0 {
        0
    } else {
        words_sum(ws.drop_last(), a).wrapping_add(word_value(ws.last(), a))
    }
}

pub open spec fn abs_int(x: int) -> int {
    if x < 0 {
        -x
    } else {
        x
    }
}

/// A relation between the values of some variables.
#[derive(Debug)]
pub enum Relation {
    /// The assigned variables among these hold pairwise different values.
    AllDifferent(Vec<String>),
    /// When both variables are assigned, their values differ.
    NotEqual(String, String),
    /// When both variables are assigned, their values are not this far apart.
    NoDiagonal(String, String, i64),
    /// Once every letter is assigned, the words on the left add up to the
    /// word on the right (each letter is the variable of that one-letter name).
    WordSum(Vec<Vec<char>>, Vec<char>),
}

/// A relation with its names taken by their characters.
pub enum RelationView {
    AllDifferent(Seq<Seq<char>>),
    NotEqual(Seq<char>, Seq<char>),
    NoDiagonal(Seq<char>, Seq<char>, i64),
    WordSum(Seq<Seq<char>>, Seq<char>),
}

impl View for Relation {
    type V = RelationView;

    open spec fn view(&self) -> RelationView {
        match self {
            Relation::AllDifferent(vs) => RelationView::AllDifferent(names_of(vs@)),
            Relation::NotEqual(x, y) => RelationView::NotEqual(x@, y@),
            Relation::NoDiagonal(x, y, d) => RelationView::NoDiagonal(x@, y@, *d),
            Relation::WordSum(left, right) => RelationView::WordSum(
                left@.map_values(|w: Vec<char>| w@),
                right@,
            ),
        }
    }
}

/// A constraint with its names taken by their characters.
pub struct ConstraintView {
    pub scope: Seq<Seq<char>>,
    pub name: Seq<char>,
    pub relation: RelationView,
}

impl View for Constraint {
    type V = ConstraintView;

    open spec fn view(&self) -> ConstraintView {
        ConstraintView { scope: self.scope(), name: self.name@, relation: self.relation@ }
    }
}

impl Relation {
    /// Whether an assignment satisfies the relation.
    pub open spec fn holds(&self, a: Map<Seq<char>, i64>) -> bool {
        match self {
            Relation::AllDifferent(vs) => all_distinct(names_of(vs@), a),
            Relation::NotEqual(x, y) => a.contains_key(x@) && a.contains_key(y@) ==> a[x@] != a[y@],
            Relation::NoDiagonal(x, y, d) => a.contains_key(x@) && a.contains_key(y@) ==> abs_int(
                a[x@] - a[y@],
            ) != *d,
            Relation::WordSum(left, right) => {
                let ws = left@.map_values(|w: Vec<char>| w@);
                words_assigned(ws, a) && word_assigned(right@, a) ==> words_sum(ws, a)
                    == word_value(right@, a)
            },
        }
    }
}

/// A constraint: the relation is checked once every variable of the scope is
/// assigned.
#[derive(Debug)]
pub struct Constraint {
    pub vars: Vec<String>,
    pub name: String,
    pub relation: Relation,
}

impl Constraint {
    /// The names of the scope.
    pub open spec fn scope(&self) -> Seq<Seq<char>> {
        names_of(self.vars@)
    }

    /// Every variable of the scope is assigned.
    pub open spec fn applies(&self, a: Map<Seq<char>, i64>) -> bool {
        forall|i: int| 0 <= i < self.scope().len() ==> #[trigger] a.contains_key(self.scope()[i])
    }

    /// Whether the assignment satisfies the constraint's relation.
    pub fn check(&self, a: &Assignment) -> (r: bool)
        ensures
            r == self.relation.holds(a@),
    {
        check_relation(&self.relation, a)
    }

    /// Whether every variable of the scope is assigned.
    pub fn all_assigned(&self, a: &Assignment) -> (r: bool)
        ensures
            r == self.applies(a@),
    {
        let mut i: usize = 0;
        while i < self.vars.len()
            invariant
                i <= self.vars@.len(),
                forall|j: int| 0 <= j < i ==> #[trigger] a@.contains_key(self.scope()[j]),
            decreases self.vars@.len() - i,
        {
            if !a.has_name(&self.vars[i]) {
                assert(self.scope()[i as int] == self.vars@[i as int]@);
                return false;
            }
            i += 1;
        }
        true
    }

    /// Whether `var` is in the scope.
    pub fn mentions(&self, var: &String) -> (r: bool)
        ensures
            r == self.scope().contains(var@),
    {
        let mut i: usize = 0;
        while i < self.vars.len()
            invariant
                i <= self.vars@.len(),
                forall|j: int| 0 <= j < i ==> self.scope()[j] != var@,
            decreases self.vars@.len() - i,
        {
            if self.vars[i] == *var {
                assert(self.scope()[i as int] == var@);
                return true;
            }
            i += 1;
        }
        false
    }
}

/// The one-letter name of a character.
pub fn letter_name(c: char) -> (r: String)
    ensures
        r@ == letter(c),
{
    let mut r = String::new();
    crate::text::push_char(&mut r, c);
    assert(r@ =~= letter(c));
    r
}

/// Whether the list holds the value.
pub fn vec_contains(v: &Vec<i64>, x: i64) -> (r: bool)
    ensures
        r == v@.contains(x),
{
    let mut i: usize = 0;
    while i < v.len()
        invariant
            i <= v@.len(),
            forall|j: int| 0 <= j < i ==> v@[j] != x,
        decreases v@.len() - i,
    {
        if v[i] == x {
            assert(v@[i as int] == x);
            return true;
        }
        i += 1;
    }
    false
}

fn check_all_different(vs: &Vec<String>, a: &Assignment) -> (r: bool)
    ensures
        r == all_distinct(names_of(vs@), a@),
{
    let ghost names = names_of(vs@);
    let mut seen: Vec<i64> = Vec::new();
    let mut k: usize = 0;
    while k < vs.len()
        invariant
            k <= vs@.len(),
            names == names_of(vs@),
            forall|x: i64|
                seen@.contains(x) <==> exists|j: int|
                    0 <= j < k && a@.contains_key(names[j]) && #[trigger] a@[names[j]] == x,
            all_distinct(names.take(k as int), a@),
        decreases vs@.len() - k,
    {
        match a.get_name(&vs[k]) {
            Some(val) => {
                if vec_contains(&seen, val) {
                    proof {
                        let j = choose|j: int|
                            0 <= j < k && a@.contains_key(names[j]) && #[trigger] a@[names[j]]
                                == val;
                        assert(a@[names[j]] == a@[names[k as int]]);
                    }
                    return false;
                }
                let ghost prev = seen@;
                seen.push(val);
                assert forall|x: i64|
                    seen@.contains(x) <==> exists|j: int|
                        0 <= j < k + 1 && a@.contains_key(names[j]) && #[trigger] a@[names[j]]
                            == x by {
                    assert(seen@ == prev.push(val));
                    if seen@.contains(x) {
                        let t = choose|t: int| 0 <= t < seen@.len() && seen@[t] == x;
                        if t < prev.len() {
                            assert(prev[t] == x);
                            assert(prev.contains(x));
                            let j = choose|j: int|
                                0 <= j < k && a@.contains_key(names[j]) && #[trigger] a@[names[j]]
                                    == x;
                            assert(0 <= j < k + 1 && a@.contains_key(names[j]) && a@[names[j]] == x);
                        } else {
                            assert(a@[names[k as int]] == x);
                        }
                    }
                    if exists|j: int|
                        0 <= j < k + 1 && a@.contains_key(names[j]) && #[trigger] a@[names[j]] == x {
                        let j = choose|j: int|
                            0 <= j < k + 1 && a@.contains_key(names[j]) && #[trigger] a@[names[j]]
                                == x;
                        if j < k {
                            assert(prev.contains(x));
                            let t = choose|t: int| 0 <= t < prev.len() && prev[t] == x;
                            assert(seen@[t] == x);
                        } else {
                            assert(seen@[prev.len() as int] == x);
                        }
                    }
                }
            },
            None => {
                assert forall|x: i64|
                    seen@.contains(x) <==> exists|j: int|
                        0 <= j < k + 1 && a@.contains_key(names[j]) && #[trigger] a@[names[j]]
                            == x by {
                    if exists|j: int|
                        0 <= j < k + 1 && a@.contains_key(names[j]) && #[trigger] a@[names[j]]
                            == x {
                        let j = choose|j: int|
                            0 <= j < k + 1 && a@.contains_key(names[j]) && #[trigger] a@[names[j]]
                                == x;
                        assert(j < k);
                    }
                }
            },
        }
        assert(all_distinct(names.take(k + 1), a@)) by {
            assert forall|i: int, j: int|
                0 <= i < j < names.take(k + 1).len() && a@.contains_key(names.take(k + 1)[i])
                    && a@.contains_key(names.take(k + 1)[j]) implies #[trigger] a@[names.take(
                k + 1,
            )[i]] != #[trigger] a@[names.take(k + 1)[j]] by {
                if j < k {
                    assert(names.take(k as int)[i] == names[i]);
                    assert(names.take(k as int)[j] == names[j]);
                } else {
                    assert(a@[names[i]] == a@[names[i]]);
                }
            }
        }
        k += 1;
    }
    assert(names.take(vs@.len() as int) =~= names);
    true
}

/// The value of the word, or `None` when one of its letters is unassigned.
pub fn word_value_of(w: &Vec<char>, a: &Assignment) -> (r: Option<i64>)
    ensures
        match r {
            Some(v) => word_assigned(w@, a@) && v == word_value(w@, a@),
            None => !word_assigned(w@, a@),
        },
{
    let mut val: i64 = 0;
    let mut k: usize = 0;
    while k < w.len()
        invariant
            k <= w@.len(),
            word_assigned(w@.take(k as int), a@),
            val == word_value(w@.take(k as int), a@),
        decreases w@.len() - k,
    {
        let name = letter_name(w[k]);
        match a.get_name(&name) {
            Some(d) => {
                assert(w@.take(k + 1).drop_last() =~= w@.take(k as int));
                val = val.wrapping_mul(10).wrapping_add(d);
                assert(word_assigned(w@.take(k + 1), a@)) by {
                    assert forall|i: int| 0 <= i < k + 1 implies #[trigger] a@.contains_key(
                        letter(w@.take(k + 1)[i]),
                    ) by {
                        if i < k {
                            assert(w@.take(k as int)[i] == w@.take(k + 1)[i]);
                        }
                    }
                }
            },
            None => {
                assert(!a@.contains_key(letter(w@[k as int])));
                return None;
            },
        }
        k += 1;
    }
    assert(w@.take(w@.len() as int) =~= w@);
    Some(val)
}

fn check_word_sum(left: &Vec<Vec<char>>, right: &Vec<char>, a: &Assignment) -> (r: bool)
    ensures
        ({
            let ws = left@.map_values(|w: Vec<char>| w@);
            r == (words_assigned(ws, a@) && word_assigned(right@, a@) ==> words_sum(ws, a@)
                == word_value(right@, a@))
        }),
{
    let ghost ws = left@.map_values(|w: Vec<char>| w@);
    let mut sum: i64 = 0;
    let mut k: usize = 0;
    while k < left.len()
        invariant
            k <= left@.len(),
            ws == left@.map_values(|w: Vec<char>| w@),
            words_assigned(ws.take(k as int), a@),
            sum == words_sum(ws.take(k as int), a@),
        decreases left@.len() - k,
    {
        match word_value_of(&left[k], a) {
            Some(v) => {
                assert(ws.take(k + 1).drop_last() =~= ws.take(k as int));
                assert(ws[k as int] == left@[k as int]@);
                sum = sum.wrapping_add(v);
                assert(words_assigned(ws.take(k + 1), a@)) by {
                    assert forall|i: int| 0 <= i < k + 1 implies #[trigger] word_assigned(
                        ws.take(k + 1)[i],
                        a@,
                    ) by {
                        if i < k {
                            assert(ws.take(k as int)[i] == ws.take(k + 1)[i]);
                        }
                    }
                }
            },
            None => {
                assert(ws[k as int] == left@[k as int]@);
                assert(!word_assigned(ws[k as int], a@));
                return true;
            },
        }
        k += 1;
    }
    assert(ws.take(left@.len() as int) =~= ws);
    match word_value_of(right, a) {
        Some(v) => sum == v,
        None => true,
    }
}

/// Whether an assignment satisfies a relation.
pub fn check_relation(rel: &Relation, a: &Assignment) -> (r: bool)
    ensures
        r == rel.holds(a@),
{
    match rel {
        Relation::AllDifferent(vs) => check_all_different(vs, a),
        Relation::NotEqual(x, y) => match (a.get_name(x), a.get_name(y)) {
            (Some(u), Some(v)) => u != v,
            _ => true,
        },
        Relation::NoDiagonal(x, y, d) => match (a.get_name(x), a.get_name(y)) {
            (Some(u), Some(v)) => {
                let diff: i128 = u as i128 - v as i128;
                let dist: i128 = if diff < 0 {
                    -diff
                } else {
                    diff
                };
                dist != *d as i128
            },
            _ => true,
        },
        Relation::WordSum(left, right) => check_word_sum(left, right, a),
    }
}

proof fn lemma_word_value_sub(w: Seq<char>, a: Map<Seq<char>, i64>, s: Map<Seq<char>, i64>)
    requires
        a.submap_of(s),
        word_assigned(w, a),
    ensures
        word_assigned(w, s),
        word_value(w, a) == word_value(w, s),
    decreases w.len(),
{
    if w.len() > 0 {
        assert(word_assigned(w.drop_last(), a)) by {
            assert forall|i: int| 0 <= i < w.drop_last().len() implies #[trigger] a.contains_key(
                letter(w.drop_last()[i]),
            ) by {
                assert(w.drop_last()[i] == w[i]);
            }
        }
        lemma_word_value_sub(w.drop_last(), a, s);
        assert(a.contains_key(letter(w[w.len() - 1])));
        assert(w.last() == w[w.len() - 1]);
        assert(s.dom().contains(letter(w.last())));
        assert(s[letter(w.last())] == a[letter(w.last())]);
    }
    assert forall|i: int| 0 <= i < w.len() implies #[trigger] s.contains_key(letter(w[i])) by {
        assert(a.contains_key(letter(w[i])));
    }
}

proof fn lemma_words_sum_sub(ws: Seq<Seq<char>>, a: Map<Seq<char>, i64>, s: Map<Seq<char>, i64>)
    requires
        a.submap_of(s),
        words_assigned(ws, a),
    ensures
        words_assigned(ws, s),
        words_sum(ws, a) == words_sum(ws, s),
    decreases ws.len(),
{
    if ws.len() > 0 {
        assert(words_assigned(ws.drop_last(), a)) by {
            assert forall|k: int| 0 <= k < ws.drop_last().len() implies #[trigger] word_assigned(
                ws.drop_last()[k],
                a,
            ) by {
                assert(ws.drop_last()[k] == ws[k]);
            }
        }
        lemma_words_sum_sub(ws.drop_last(), a, s);
        assert(word_assigned(ws[ws.len() - 1], a));
        lemma_word_value_sub(ws.last(), a, s);
    }
    assert forall|k: int| 0 <= k < ws.len() implies #[trigger] word_assigned(ws[k], s) by {
        assert(word_assigned(ws[k], a));
        lemma_word_value_sub(ws[k], a, s);
    }
}

/// A relation that holds of an assignment holds of every part of it: fewer
/// assigned variables never make a satisfied relation fail.
pub proof fn lemma_holds_submap(rel: &Relation, a: Map<Seq<char>, i64>, s: Map<Seq<char>, i64>)
    requires
        a.submap_of(s),
        rel.holds(s),
    ensures
        rel.holds(a),
{
    match rel {
        Relation::AllDifferent(vs) => {
            let names = names_of(vs@);
            assert forall|i: int, j: int|
                0 <= i < j < names.len() && a.contains_key(names[i]) && a.contains_key(
                    names[j],
                ) implies #[trigger] a[names[i]] != #[trigger] a[names[j]] by {
                assert(s.contains_key(names[i]) && s.contains_key(names[j]));
                assert(s[names[i]] != s[names[j]]);
            }
        },
        Relation::NotEqual(x, y) => {
            if a.contains_key(x@) && a.contains_key(y@) {
                assert(s.contains_key(x@) && s.contains_key(y@));
            }
        },
        Relation::NoDiagonal(x, y, d) => {
            if a.contains_key(x@) && a.contains_key(y@) {
                assert(s.contains_key(x@) && s.contains_key(y@));
            }
        },
        Relation::WordSum(left, right) => {
            let ws = left@.map_values(|w: Vec<char>| w@);
            if words_assigned(ws, a) && word_assigned(right@, a) {
                lemma_words_sum_sub(ws, a, s);
                lemma_word_value_sub(right@, a, s);
            }
        },
    }
}

/// Every relation holds of the empty assignment.
pub proof fn lemma_holds_empty(rel: &Relation)
    ensures
        rel.holds(Map::empty()),
{
    match rel {
        Relation::WordSum(left, right) => {
            let ws = left@.map_values(|w: Vec<char>| w@);
            let e = Map::<Seq<char>, i64>::empty();
            if words_assigned(ws, e) && word_assigned(right@, e) {
                assert forall|k: int| 0 <= k < ws.len() implies ws[k].len() == 0 by {
                    assert(word_assigned(ws[k], e));
                    if ws[k].len() > 0 {
                        assert(e.contains_key(letter(ws[k][0])));
                    }
                }
                if right@.len() > 0 {
                    assert(e.contains_key(letter(right@[0])));
                }
                lemma_words_sum_zero(ws, e);
            }
        },
        _ => {},
    }
}

proof fn lemma_words_sum_zero(ws: Seq<Seq<char>>, a: Map<Seq<char>, i64>)
    requires
        forall|k: int| 0 <= k < ws.len() ==> ws[k].len() == 0,
    ensures
        words_sum(ws, a) == 0,
    decreases ws.len(),
{
    if ws.len() > 0 {
        lemma_words_sum_zero(ws.drop_last(), a);
        assert(ws.last().len() == 0);
        assert(0i64.wrapping_add(0i64) == 0i64);
    }
}

/// A constraint that the assigned variables among `vars` hold pairwise
/// different values.
pub fn all_different(vars: &[&str]) -> (c: Constraint)
    ensures
        c.scope() == str_names_of(vars@),
        c.name@ == "AllDifferent"@,
        c.relation matches Relation::AllDifferent(vs) && names_of(vs@) == str_names_of(vars@),
{
    let names = to_strings(vars);
    let names_again = to_strings(vars);
    Constraint { vars: names, name: "AllDifferent".to_owned(), relation: Relation::AllDifferent(names_again) }
}

/// Owned copies of some names.
pub fn to_strings(vars: &[&str]) -> (r: Vec<String>)
    ensures
        names_of(r@) == str_names_of(vars@),
{
    let mut r: Vec<String> = Vec::new();
    let mut i: usize = 0;
    while i < vars.len()
        invariant
            i <= vars@.len(),
            names_of(r@) == str_names_of(vars@.take(i as int)),
        decreases vars@.len() - i,
    {
        r.push(vars[i].to_owned());
        assert(str_names_of(vars@.take(i + 1)) =~= str_names_of(vars@.take(i as int)).push(
            vars@[i as int]@,
        ));
        assert(names_of(r@) =~= names_of(r@.drop_last()).push(r@.last()@));
        i += 1;
    }
    assert(vars@.take(vars@.len() as int) =~= vars@);
    r
}

} // verus!
