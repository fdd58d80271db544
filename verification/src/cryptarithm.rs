//! Cryptarithms such as `SEND + MORE = MONEY`: reading the puzzle and turning
//! it into a constraint-satisfaction problem over one variable per letter.
use vstd::prelude::*;

use crate::constraint::{letter, letter_name, Constraint, ConstraintView, Relation, RelationView};
use crate::csp::{range_domain, range_seq, CSPProblem};
use crate::names::Assignment;
use crate::text::{
    count_char, decimal, decimal_chars, lemma_split_len, push_all, split_chars, split_on, str_chars,
    string_from_chars, trim, trim_chars, views_of, all_ascii, ascii_upper, code_point, is_ascii_lower, same_but_case, lemma_split_case,
    lemma_trim_case,
};

verus! {

broadcast use vstd::seq_lib::group_seq_properties;

/// What `str::to_uppercase` gives for a string.
pub uninterp spec fn uppercase(s: Seq<char>) -> Seq<char>;

/// Calls `str::to_uppercase`, whose result is named `uppercase`. On ASCII
/// text Unicode's upper-case mapping sends `a` to `z` to `A` to `Z` and
/// keeps every other character, and the result says so.
#[verifier::external_body]
pub(crate) fn to_upper(s: &str) -> (r: String)
    ensures
        r@ == uppercase(s@),
        all_ascii(s@) ==> r@ == s@.map_values(|c: char| ascii_upper(c)),
{
    s.to_uppercase()
}

/// The upper case of a text: on ASCII text each of `a` to `z` becomes its
/// capital and every other character stays; other text is what
/// `str::to_uppercase` gives.
pub open spec fn upper_text(s: Seq<char>) -> Seq<char> {
    if all_ascii(s) {
        s.map_values(|c: char| ascii_upper(c))
    } else {
        uppercase(s)
    }
}

/// The text in upper case (see `upper_text`).
pub fn upper_string(s: &str) -> (r: String)
    ensures
        r@ == upper_text(s@),
        r@ == uppercase(s@),
{
    let std_upper = to_upper(s);
    let cs = str_chars(s);
    let mut ascii = true;
    let mut i: usize = 0;
    while i < cs.len()
        invariant
            i <= cs@.len(),
            ascii == forall|j: int| 0 <= j < i ==> (#[trigger] cs@[j] as int) < 128,
        decreases cs@.len() - i,
    {
        let c = cs[i];
        let n: u32 = code_point(c);
        assert(c == cs@[i as int]);
        if n >= 128 {
            ascii = false;
        }
        proof {
            if ascii {
                assert forall|j: int| 0 <= j < i + 1 implies (#[trigger] cs@[j] as int) < 128 by {
                    if j < i {
                    }
                }
            }
        }
        i += 1;
    }
    if !ascii {
        return std_upper;
    }
    let mut out: Vec<char> = Vec::new();
    let mut k: usize = 0;
    while k < cs.len()
        invariant
            k <= cs@.len(),
            out@ == cs@.take(k as int).map_values(|c: char| ascii_upper(c)),
        decreases cs@.len() - k,
    {
        let c = cs[k];
        let n: u32 = code_point(c);
        let u = if 97 <= n && n <= 122 {
            let b: u8 = (n - 32) as u8;
            b as char
        } else {
            c
        };
        assert(u == ascii_upper(c));
        out.push(u);
        assert(cs@.take(k + 1) =~= cs@.take(k as int).push(c));
        assert(out@ =~= cs@.take(k + 1).map_values(|c: char| ascii_upper(c)));
        k += 1;
    }
    assert(cs@.take(cs@.len() as int) =~= cs@);
    assert(out@ == std_upper@);
    string_from_chars(&out)
}

/// The characters in increasing order of code point, none twice.
pub open spec fn sorted_chars(s: Seq<char>) -> bool {
    forall|i: int, j: int| 0 <= i < j < s.len() ==> (s[i] as int) < (s[j] as int)
}

/// Every letter of the words.
pub open spec fn letters_of(ws: Seq<Seq<char>>) -> Set<char>
    decreases ws.len(),
{
    if ws.len() == 0 {
        Set::empty()
    } else {
        letters_of(ws.drop_last()) + ws.last().to_set()
    }
}

/// The first letter of every word that has one.
pub open spec fn leading_of(ws: Seq<Seq<char>>) -> Set<char>
    decreases ws.len(),
{
    if ws.len() == 0 {
        Set::empty()
    } else {
        leading_of(ws.drop_last()) + if ws.last().len() > 0 {
            set![ws.last()[0]]
        } else {
            Set::empty()
        }
    }
}

/// The words left of `=`: split at `+`, each trimmed and upper-cased.
pub open spec fn parsed_left(expr: Seq<char>) -> Seq<Seq<char>> {
    split_on(trim(split_on(expr, '=')[0]), '+').map_values(|w: Seq<char>| upper_text(trim(w)))
}

/// The word right of `=`, trimmed and upper-cased.
pub open spec fn parsed_right(expr: Seq<char>) -> Seq<char> {
    upper_text(trim(split_on(expr, '=')[1]))
}

/// The label `A + B + ... = R` of the sum.
pub open spec fn sum_label(left: Seq<Seq<char>>, right: Seq<char>) -> Seq<char> {
    join_plus(left) + seq![' ', '=', ' '] + right
}

/// The words joined by ` + `.
pub open spec fn join_plus(ws: Seq<Seq<char>>) -> Seq<char>
    decreases ws.len(),
{
    if ws.len() == 0 {
        Seq::empty()
    } else if ws.len() == 1 {
        ws[0]
    } else {
        join_plus(ws.drop_last()) + seq![' ', '+', ' '] + ws.last()
    }
}

/// Texts that differ only in the case of ASCII letters, both ASCII, have
/// the same upper case, and that upper case holds no lower-case letter.
proof fn lemma_upper_same(s: Seq<char>, t: Seq<char>)
    requires
        same_but_case(s, t),
        all_ascii(s),
    ensures
        all_ascii(t),
        upper_text(s) == upper_text(t),
        upper_text(s).len() == s.len(),
        same_but_case(upper_text(s), s),
        forall|i: int| 0 <= i < upper_text(s).len() ==> !is_ascii_lower(#[trigger] upper_text(s)[i]),
{
    assert forall|i: int| 0 <= i < t.len() implies (#[trigger] t[i] as int) < 128 by {
        assert((s[i] as int) < 128);
        assert(ascii_upper(s[i]) == ascii_upper(t[i]));
    }
    assert(upper_text(s) =~= upper_text(t)) by {
        assert forall|i: int| 0 <= i < s.len() implies upper_text(s)[i] == upper_text(t)[i] by {
            assert(ascii_upper(s[i]) == ascii_upper(t[i]));
        }
    }
}

/// Reading a puzzle ignores the case of its letters: two ASCII puzzles that
/// differ only in the case of letters (`Send + More = Money` and
/// `SEND + MORE = MONEY`) give the same words.
pub proof fn lemma_parse_ignores_case(e1: Seq<char>, e2: Seq<char>)
    requires
        all_ascii(e1),
        same_but_case(e1, e2),
        count_char(e1, '=') == 1,
    ensures
        parsed_left(e1) == parsed_left(e2),
        parsed_right(e1) == parsed_right(e2),
{
    lemma_words_case(e1, e2);
}

/// The words read from an ASCII puzzle are its trimmed pieces with every
/// lower-case letter made a capital: each agrees with its piece but for case,
/// and none holds a lower-case letter.
pub proof fn lemma_parse_upper(e: Seq<char>)
    requires
        all_ascii(e),
        count_char(e, '=') == 1,
    ensures
        parsed_left(e).len() == split_on(trim(split_on(e, '=')[0]), '+').len(),
        forall|k: int|
            0 <= k < parsed_left(e).len() ==> same_but_case(
                #[trigger] parsed_left(e)[k],
                trim(split_on(trim(split_on(e, '=')[0]), '+')[k]),
            ),
        forall|k: int, i: int|
            0 <= k < parsed_left(e).len() && 0 <= i < parsed_left(e)[k].len() ==> !is_ascii_lower(
                #[trigger] parsed_left(e)[k][i],
            ),
        same_but_case(parsed_right(e), trim(split_on(e, '=')[1])),
        forall|i: int| 0 <= i < parsed_right(e).len() ==> !is_ascii_lower(#[trigger] parsed_right(e)[i]),
{
    lemma_same_refl(e);
    lemma_words_case(e, e);
    let left = trim(split_on(e, '=')[0]);
    let pieces = split_on(left, '+');
    assert forall|k: int| 0 <= k < parsed_left(e).len() implies same_but_case(
        #[trigger] parsed_left(e)[k],
        trim(pieces[k]),
    ) && forall|i: int| 0 <= i < parsed_left(e)[k].len() ==> !is_ascii_lower(#[trigger] parsed_left(e)[k][i]) by {
        let w = trim(pieces[k]);
        lemma_same_refl(w);
        lemma_upper_same(w, w);
        lemma_same_sym(upper_text(w), w);
    }
    let r = trim(split_on(e, '=')[1]);
    lemma_same_refl(r);
    lemma_upper_same(r, r);
}

proof fn lemma_same_refl(s: Seq<char>)
    ensures
        same_but_case(s, s),
{
}

proof fn lemma_same_sym(s: Seq<char>, t: Seq<char>)
    requires
        same_but_case(s, t),
    ensures
        same_but_case(t, s),
{
}

/// The pieces of two ASCII puzzles that differ only in case, and the words
/// read from them.
proof fn lemma_words_case(e1: Seq<char>, e2: Seq<char>)
    requires
        all_ascii(e1),
        same_but_case(e1, e2),
        count_char(e1, '=') == 1,
    ensures
        parsed_left(e1) == parsed_left(e2),
        parsed_right(e1) == parsed_right(e2),
        forall|k: int|
            0 <= k < split_on(trim(split_on(e1, '=')[0]), '+').len() ==> all_ascii(
                trim(#[trigger] split_on(trim(split_on(e1, '=')[0]), '+')[k]),
            ),
        all_ascii(trim(split_on(e1, '=')[1])),
{
    lemma_split_len(e1, '=');
    lemma_split_case(e1, e2, '=');
    let a1 = split_on(e1, '=');
    let a2 = split_on(e2, '=');
    assert(same_but_case(a1[0], a2[0]) && all_ascii(a1[0]));
    assert(same_but_case(a1[1], a2[1]) && all_ascii(a1[1]));
    lemma_trim_case(a1[0], a2[0]);
    lemma_trim_case(a1[1], a2[1]);
    let l1 = trim(a1[0]);
    let l2 = trim(a2[0]);
    lemma_split_case(l1, l2, '+');
    let p1 = split_on(l1, '+');
    let p2 = split_on(l2, '+');
    assert forall|k: int| 0 <= k < p1.len() implies upper_text(trim(#[trigger] p1[k])) == upper_text(trim(p2[k]))
        && all_ascii(trim(p1[k])) by {
        assert(same_but_case(p1[k], p2[k]) && all_ascii(p1[k]));
        lemma_trim_case(p1[k], p2[k]);
        lemma_upper_same(trim(p1[k]), trim(p2[k]));
    }
    assert(parsed_left(e1) =~= parsed_left(e2));
    lemma_upper_same(trim(a1[1]), trim(a2[1]));
}

/// A cryptarithm: words that add up to a word, their distinct letters in
/// order, and the letters that begin a word (which cannot stand for zero).
#[derive(Debug)]
pub struct Cryptarithm {
    pub words_left: Vec<String>,
    pub word_right: String,
    pub letters: Vec<char>,
    pub leading_chars: Vec<char>,
}

impl Cryptarithm {
    /// The words on the left, then the word on the right.
    pub open spec fn words(&self) -> Seq<Seq<char>> {
        crate::constraint::names_of(self.words_left@).push(self.word_right@)
    }

    /// Reads a puzzle of the form `WORD + WORD + ... = WORD`.
    pub fn parse(expr: &str) -> (r: Self)
        requires
            count_char(expr@, '=') == 1,
        ensures
            crate::constraint::names_of(r.words_left@) == parsed_left(expr@),
            r.word_right@ == parsed_right(expr@),
            crate::constraint::names_of(r.words_left@) == split_on(trim(split_on(expr@, '=')[0]), '+').map_values(
                |w: Seq<char>| uppercase(trim(w)),
            ),
            r.word_right@ == uppercase(trim(split_on(expr@, '=')[1])),
            sorted_chars(r.letters@),
            r.letters@.to_set() == letters_of(r.words()),
            r.leading_chars@.no_duplicates(),
            r.leading_chars@.to_set() == leading_of(r.words()),
    {
        let chars = str_chars(expr);
        let parts = split_chars(&chars, '=');
        proof {
            lemma_split_len(expr@, '=');
            assert(views_of(parts@)[0] == parts@[0]@);
            assert(views_of(parts@)[1] == parts@[1]@);
        }
        let left = trim_chars(&parts[0]);
        let right = trim_chars(&parts[1]);
        let raw = split_chars(&left, '+');
        let mut words_left: Vec<String> = Vec::new();
        let mut k: usize = 0;
        while k < raw.len()
            invariant
                k <= raw@.len(),
                views_of(raw@) == split_on(left@, '+'),
                crate::constraint::names_of(words_left@) == views_of(raw@).take(k as int).map_values(
                    |w: Seq<char>| upper_text(trim(w)),
                ),
                crate::constraint::names_of(words_left@) == views_of(raw@).take(k as int).map_values(
                    |w: Seq<char>| uppercase(trim(w)),
                ),
            decreases raw@.len() - k,
        {
            let t = trim_chars(&raw[k]);
            let s = string_from_chars(&t);
            let u = upper_string(s.as_str());
            let ghost prev = words_left@;
            words_left.push(u);
            proof {
                assert(views_of(raw@)[k as int] == raw@[k as int]@);
                assert(crate::constraint::names_of(words_left@) =~= crate::constraint::names_of(prev).push(
                    u@,
                ));
                assert(views_of(raw@).take(k + 1) =~= views_of(raw@).take(k as int).push(
                    raw@[k as int]@,
                ));
                assert(crate::constraint::names_of(words_left@) =~= views_of(raw@).take(
                    k + 1,
                ).map_values(|w: Seq<char>| upper_text(trim(w))));
                assert(crate::constraint::names_of(words_left@) =~= views_of(raw@).take(
                    k + 1,
                ).map_values(|w: Seq<char>| uppercase(trim(w))));
            }
            k += 1;
        }
        assert(views_of(raw@).take(raw@.len() as int) =~= views_of(raw@));
        let right_s = string_from_chars(&right);
        let word_right = upper_string(right_s.as_str());
        Self::from_words(words_left, word_right)
    }

    /// The puzzle whose words on the left are `words_left` and whose word on
    /// the right is `word_right`, with its letters and leading letters.
    pub fn from_words(words_left: Vec<String>, word_right: String) -> (r: Self)
        ensures
            r.words_left@ == words_left@,
            r.word_right == word_right,
            sorted_chars(r.letters@),
            r.letters@.to_set() == letters_of(r.words()),
            r.leading_chars@.no_duplicates(),
            r.leading_chars@.to_set() == leading_of(r.words()),
    {
        let ghost ws = crate::constraint::names_of(words_left@).push(word_right@);
        let mut letters: Vec<char> = Vec::new();
        let mut leading: Vec<char> = Vec::new();
        let mut w: usize = 0;
        while w < words_left.len()
            invariant
                w <= words_left@.len(),
                ws == crate::constraint::names_of(words_left@).push(word_right@),
                sorted_chars(letters@),
                letters@.to_set() == letters_of(ws.take(w as int)),
                leading@.no_duplicates(),
                leading@.to_set() == leading_of(ws.take(w as int)),
            decreases words_left@.len() - w,
        {
            let cs = str_chars(words_left[w].as_str());
            assert(cs@ == ws[w as int]);
            add_word_letters(&mut letters, &mut leading, &cs);
            assert(ws.take(w + 1).drop_last() =~= ws.take(w as int));
            w += 1;
        }
        let cs = str_chars(word_right.as_str());
        add_word_letters(&mut letters, &mut leading, &cs);
        assert(ws.take(w + 1).drop_last() =~= ws.take(w as int));
        assert(ws.take(words_left@.len() as int + 1) =~= ws);
        Cryptarithm { words_left, word_right, letters, leading_chars: leading }
    }

    /// The problem of the puzzle: a variable per letter (named by the letter),
    /// with digits 1 to 9 for leading letters and 0 to 9 for the others; the
    /// letters all different; and the words on the left adding up to the word
    /// on the right.
    pub fn to_csp(&self) -> (r: CSPProblem)
        ensures
            r.var_names() == self.letters@.map_values(|c: char| letter(c)),
            forall|k: Seq<char>| #[trigger] r.domains@.contains_key(k) <==> r.var_names().contains(k),
            forall|i: int|
                0 <= i < self.letters@.len() ==> r.domains@[letter(#[trigger] self.letters@[i])] == if self.leading_chars@.contains(
                    self.letters@[i],
                ) {
                    range_seq(1, 9)
                } else {
                    range_seq(0, 9)
                },
            r.constraints@.len() == 2,
            r.constraints@[0]@ == (ConstraintView {
                scope: self.letters@.map_values(|c: char| letter(c)),
                name: "AllDifferent"@,
                relation: RelationView::AllDifferent(self.letters@.map_values(|c: char| letter(c))),
            }),
            r.constraints@[1]@ == (ConstraintView {
                scope: self.letters@.map_values(|c: char| letter(c)),
                name: sum_label(crate::constraint::names_of(self.words_left@), self.word_right@),
                relation: RelationView::WordSum(
                    crate::constraint::names_of(self.words_left@),
                    self.word_right@,
                ),
            }),
    {
        let ghost names = self.letters@.map_values(|c: char| letter(c));
        let mut problem = CSPProblem::new();
        let mut i: usize = 0;
        while i < self.letters.len()
            invariant
                i <= self.letters@.len(),
                names == self.letters@.map_values(|c: char| letter(c)),
                problem.var_names() == names.take(i as int),
                forall|k: Seq<char>| #[trigger]
                    problem.domains@.contains_key(k) <==> problem.var_names().contains(k),
                forall|t: int|
                    0 <= t < i ==> problem.domains@[letter(#[trigger] self.letters@[t])] == if self.leading_chars@.contains(
                        self.letters@[t],
                    ) {
                        range_seq(1, 9)
                    } else {
                        range_seq(0, 9)
                    },
                problem.constraints@ == Seq::<Constraint>::empty(),
            decreases self.letters@.len() - i,
        {
            let c = self.letters[i];
            let lead = contains_char(&self.leading_chars, c);
            let domain = if lead {
                range_domain(1, 9)
            } else {
                range_domain(0, 9)
            };
            let name = letter_name(c);
            let ghost before = problem.domains@;
            problem.add_variable(name.as_str(), domain);
            proof {
                assert(names.take(i + 1) =~= names.take(i as int).push(letter(c)));
                assert forall|t: int|
                    0 <= t < i + 1 implies problem.domains@[letter(#[trigger] self.letters@[t])]
                    == if self.leading_chars@.contains(self.letters@[t]) {
                    range_seq(1, 9)
                } else {
                    range_seq(0, 9)
                } by {
                    if letter(self.letters@[t]) != letter(c) {
                        assert(before[letter(self.letters@[t])] == problem.domains@[letter(
                            self.letters@[t],
                        )]);
                    } else {
                        assert(letter(self.letters@[t])[0] == self.letters@[t]);
                        assert(letter(c)[0] == c);
                    }
                }
                assert forall|k: Seq<char>| #[trigger]
                    problem.domains@.contains_key(k) <==> problem.var_names().contains(k) by {
                    if k == letter(c) {
                        assert(problem.var_names()[i as int] == k);
                    } else {
                        if problem.var_names().contains(k) {
                            let t = choose|t: int|
                                0 <= t < problem.var_names().len() && problem.var_names()[t] == k;
                            assert(names.take(i as int)[t] == k);
                        }
                        if names.take(i as int).contains(k) {
                            let t = choose|t: int| 0 <= t < i && names.take(i as int)[t] == k;
                            assert(problem.var_names()[t] == k);
                        }
                    }
                }
            }
            i += 1;
        }
        assert(names.take(self.letters@.len() as int) =~= names);
        let scope = letter_names(&self.letters);
        let scope_again = letter_names(&self.letters);
        let all_diff = Constraint {
            vars: scope,
            name: "AllDifferent".to_owned(),
            relation: Relation::AllDifferent(scope_again),
        };
        problem.constraints.push(all_diff);
        let mut left_words: Vec<Vec<char>> = Vec::new();
        let mut label: Vec<char> = Vec::new();
        let mut k: usize = 0;
        while k < self.words_left.len()
            invariant
                k <= self.words_left@.len(),
                views_of(left_words@) == crate::constraint::names_of(self.words_left@).take(k as int),
                label@ == join_plus(crate::constraint::names_of(self.words_left@).take(k as int)),
            decreases self.words_left@.len() - k,
        {
            let cs = str_chars(self.words_left[k].as_str());
            let ghost wv = crate::constraint::names_of(self.words_left@);
            assert(wv.take(k + 1).drop_last() =~= wv.take(k as int));
            assert(wv[k as int] == cs@);
            if k > 0 {
                label.push(' ');
                label.push('+');
                label.push(' ');
            }
            push_all(&mut label, &cs);
            proof {
                if k > 0 {
                    assert(label@ =~= join_plus(wv.take(k as int)) + seq![' ', '+', ' '] + cs@);
                } else {
                    assert(label@ =~= cs@);
                }
            }
            left_words.push(cs);
            assert(views_of(left_words@) =~= wv.take(k + 1));
            k += 1;
        }
        assert(crate::constraint::names_of(self.words_left@).take(self.words_left@.len() as int)
            =~= crate::constraint::names_of(self.words_left@));
        let right_chars = str_chars(self.word_right.as_str());
        label.push(' ');
        label.push('=');
        label.push(' ');
        push_all(&mut label, &right_chars);
        assert(label@ =~= sum_label(crate::constraint::names_of(self.words_left@), self.word_right@));
        let sum = Constraint {
            vars: letter_names(&self.letters),
            name: string_from_chars(&label),
            relation: Relation::WordSum(left_words, right_chars),
        };
        problem.constraints.push(sum);
        assert(problem.constraints@[1].relation@ == RelationView::WordSum(
            crate::constraint::names_of(self.words_left@),
            self.word_right@,
        )) by {
            assert(left_words@.map_values(|w: Vec<char>| w@) == views_of(left_words@));
        }
        problem
    }
}

/// Adds the letters of a word, and its first letter to the leading ones.
fn add_word_letters(letters: &mut Vec<char>, leading: &mut Vec<char>, cs: &Vec<char>)
    requires
        sorted_chars(old(letters)@),
        old(leading)@.no_duplicates(),
    ensures
        sorted_chars(final(letters)@),
        final(letters)@.to_set() == old(letters)@.to_set() + cs@.to_set(),
        final(leading)@.no_duplicates(),
        final(leading)@.to_set() == old(leading)@.to_set() + if cs@.len() > 0 {
            set![cs@[0]]
        } else {
            Set::empty()
        },
{
    let mut i: usize = 0;
    let ghost before = letters@.to_set();
    while i < cs.len()
        invariant
            i <= cs@.len(),
            sorted_chars(letters@),
            letters@.to_set() == before + cs@.take(i as int).to_set(),
        decreases cs@.len() - i,
    {
        insert_char_sorted(letters, cs[i]);
        proof {
            lemma_to_set_push(cs@.take(i as int), cs@[i as int]);
            assert(cs@.take(i + 1) =~= cs@.take(i as int).push(cs@[i as int]));
        }
        assert(letters@.to_set() =~= before + cs@.take(i + 1).to_set());
        i += 1;
    }
    assert(cs@.take(cs@.len() as int) =~= cs@);
    let ghost lead_before = leading@.to_set();
    if cs.len() > 0 {
        insert_char_unique(leading, cs[0]);
        assert(leading@.to_set() =~= lead_before + set![cs@[0]]);
    } else {
        assert(leading@.to_set() =~= lead_before + Set::<char>::empty());
    }
}

proof fn lemma_to_set_push(s: Seq<char>, x: char)
    ensures
        s.push(x).to_set() == s.to_set().insert(x),
{
    assert forall|y: char| #[trigger] s.push(x).to_set().contains(y) <==> s.to_set().insert(x).contains(y) by {
        if s.push(x).contains(y) {
            let t = choose|t: int| 0 <= t < s.push(x).len() && s.push(x)[t] == y;
            if t < s.len() {
                assert(s[t] == y);
            }
        }
        if s.contains(y) {
            let t = choose|t: int| 0 <= t < s.len() && s[t] == y;
            assert(s.push(x)[t] == y);
        }
        if y == x {
            assert(s.push(x)[s.len() as int] == x);
        }
    }
    assert(s.push(x).to_set() =~= s.to_set().insert(x));
}

/// The one-letter names of the letters.
fn letter_names(letters: &Vec<char>) -> (r: Vec<String>)
    ensures
        crate::constraint::names_of(r@) == letters@.map_values(|c: char| letter(c)),
{
    let mut r: Vec<String> = Vec::new();
    let mut i: usize = 0;
    while i < letters.len()
        invariant
            i <= letters@.len(),
            crate::constraint::names_of(r@) == letters@.take(i as int).map_values(|c: char| letter(c)),
        decreases letters@.len() - i,
    {
        let ghost prev = r@;
        let nm = letter_name(letters[i]);
        r.push(nm);
        assert(crate::constraint::names_of(r@) =~= crate::constraint::names_of(prev).push(nm@));
        assert(letters@.take(i + 1) =~= letters@.take(i as int).push(letters@[i as int]));
        assert(crate::constraint::names_of(r@) =~= letters@.take(i + 1).map_values(
            |c: char| letter(c),
        ));
        i += 1;
    }
    assert(letters@.take(letters@.len() as int) =~= letters@);
    r
}

/// Whether the list holds the character.
fn contains_char(v: &Vec<char>, c: char) -> (r: bool)
    ensures
        r == v@.contains(c),
{
    let mut i: usize = 0;
    while i < v.len()
        invariant
            i <= v@.len(),
            forall|j: int| 0 <= j < i ==> v@[j] != c,
        decreases v@.len() - i,
    {
        if v[i] == c {
            assert(v@[i as int] == c);
            return true;
        }
        i += 1;
    }
    false
}

/// Adds `c` to a list without repeats, unless it is there.
fn insert_char_unique(v: &mut Vec<char>, c: char)
    requires
        old(v)@.no_duplicates(),
    ensures
        final(v)@.no_duplicates(),
        final(v)@.to_set() == old(v)@.to_set().insert(c),
{
    if contains_char(v, c) {
        assert(v@.to_set() =~= old(v)@.to_set().insert(c));
        return;
    }
    v.push(c);
    proof {
        lemma_to_set_push(old(v)@, c);
    }
}

/// Inserts `c` into a list of characters in increasing order, unless it is
/// there.
fn insert_char_sorted(v: &mut Vec<char>, c: char)
    requires
        sorted_chars(old(v)@),
    ensures
        sorted_chars(final(v)@),
        final(v)@.to_set() == old(v)@.to_set().insert(c),
{
    let mut pos: usize = 0;
    while pos < v.len() && v[pos] < c
        invariant
            pos <= v@.len(),
            v@ == old(v)@,
            forall|i: int| 0 <= i < pos ==> (v@[i] as int) < (c as int),
        decreases v@.len() - pos,
    {
        pos += 1;
    }
    if pos < v.len() && v[pos] == c {
        assert(v@.to_set() =~= old(v)@.to_set().insert(c)) by {
            assert(v@.contains(c)) by {
                assert(v@[pos as int] == c);
            }
        }
        return;
    }
    let ghost before = v@;
    v.insert(pos, c);
    proof {
        before.insert_ensures(pos as int, c);
        assert forall|i: int, j: int| 0 <= i < j < v@.len() implies (v@[i] as int) < (v@[j] as int) by {
            if j < pos {
            } else if j == pos {
            } else if i < pos {
                assert(v@[j] == before[j - 1]);
                assert((before[pos as int] as int) > (c as int)) by {
                    assert(before[pos as int] != c);
                }
                if j - 1 > pos {
                    assert((before[pos as int] as int) < (before[j - 1] as int));
                }
            } else if i == pos {
                assert(before[pos as int] != c);
                if j - 1 > pos {
                    assert((before[pos as int] as int) < (before[j - 1] as int));
                }
            } else {
                assert(v@[i] == before[i - 1]);
                assert(v@[j] == before[j - 1]);
            }
        }
        assert forall|y: char| #[trigger] v@.to_set().contains(y) <==> old(v)@.to_set().insert(c).contains(y) by {
            if v@.contains(y) {
                let t = choose|t: int| 0 <= t < v@.len() && v@[t] == y;
                if t < pos {
                    assert(before[t] == y);
                } else if t > pos {
                    assert(before[t - 1] == y);
                }
            }
            if before.contains(y) {
                let t = choose|t: int| 0 <= t < before.len() && before[t] == y;
                if t < pos {
                    assert(v@[t] == y);
                } else {
                    assert(v@[t + 1] == y);
                }
            }
            if y == c {
                assert(v@[pos as int] == c);
            }
        }
        assert(v@.to_set() =~= old(v)@.to_set().insert(c));
    }
}

/// The digit a letter shows in an assignment, 0 when it has none.
pub open spec fn shown_digit(a: Map<Seq<char>, i64>, c: char) -> i64 {
    if a.contains_key(letter(c)) {
        a[letter(c)]
    } else {
        0
    }
}

/// The number a word shows, reading each letter's digit (0 when it has
/// none), in wrapping 64-bit arithmetic.
pub open spec fn shown_value(w: Seq<char>, a: Map<Seq<char>, i64>) -> i64
    decreases w.len(),
{
    if w.len() == 0 {
        0
    } else {
        shown_value(w.drop_last(), a).wrapping_mul(10).wrapping_add(shown_digit(a, w.last()))
    }
}

/// A word followed by the number it shows in brackets, as in `SEND (9567)`.
pub open spec fn word_text(w: Seq<char>, a: Map<Seq<char>, i64>) -> Seq<char> {
    w + " ("@ + decimal(shown_value(w, a) as int) + ")"@
}

/// The words with their numbers, joined by ` + `.
pub open spec fn sum_text(ws: Seq<Seq<char>>, a: Map<Seq<char>, i64>) -> Seq<char>
    decreases ws.len(),
{
    if ws.len() == 0 {
        Seq::empty()
    } else if ws.len() == 1 {
        word_text(ws[0], a)
    } else {
        sum_text(ws.drop_last(), a) + " + "@ + word_text(ws.last(), a)
    }
}

/// The letters with their digits, as `S=9`, joined by two spaces.
pub open spec fn mapping_text(cs: Seq<char>, a: Map<Seq<char>, i64>) -> Seq<char>
    decreases cs.len(),
{
    if cs.len() == 0 {
        Seq::empty()
    } else if cs.len() == 1 {
        seq![cs[0], '='] + decimal(a[letter(cs[0])] as int)
    } else {
        mapping_text(cs.drop_last(), a) + "  "@ + seq![cs.last(), '='] + decimal(a[letter(cs.last())] as int)
    }
}

/// The number a word shows.
pub fn shown_value_of(w: &Vec<char>, a: &Assignment) -> (r: i64)
    ensures
        r == shown_value(w@, a@),
{
    let mut val: i64 = 0;
    let mut k: usize = 0;
    while k < w.len()
        invariant
            k <= w@.len(),
            val == shown_value(w@.take(k as int), a@),
        decreases w@.len() - k,
    {
        assert(w@.take(k + 1).drop_last() =~= w@.take(k as int));
        let d = match a.get_name(&letter_name(w[k])) {
            Some(d) => d,
            None => 0,
        };
        val = val.wrapping_mul(10).wrapping_add(d);
        k += 1;
    }
    assert(w@.take(w@.len() as int) =~= w@);
    val
}

/// A word followed by the number it shows in brackets.
pub fn word_text_of(w: &Vec<char>, a: &Assignment) -> (r: Vec<char>)
    ensures
        r@ == word_text(w@, a@),
{
    let mut r: Vec<char> = Vec::new();
    push_all(&mut r, w);
    push_all(&mut r, &str_chars(" ("));
    push_all(&mut r, &decimal_chars(shown_value_of(w, a)));
    push_all(&mut r, &str_chars(")"));
    r
}

impl Cryptarithm {
    /// The equation of a solution with the number each word shows:
    /// `equation: SEND (9567) + MORE (1085) = MONEY (10652)`.
    pub fn equation_text(&self, a: &Assignment) -> (r: String)
        ensures
            r@ == "equation: "@ + sum_text(crate::constraint::names_of(self.words_left@), a@) + " = "@ + word_text(
                self.word_right@,
                a@,
            ),
    {
        let ghost ws = crate::constraint::names_of(self.words_left@);
        let mut v: Vec<char> = str_chars("equation: ");
        let ghost head = v@;
        let mut i: usize = 0;
        while i < self.words_left.len()
            invariant
                i <= self.words_left@.len(),
                ws == crate::constraint::names_of(self.words_left@),
                v@ == head + sum_text(ws.take(i as int), a@),
            decreases self.words_left@.len() - i,
        {
            if i > 0 {
                push_all(&mut v, &str_chars(" + "));
            }
            let w = str_chars(self.words_left[i].as_str());
            push_all(&mut v, &word_text_of(&w, a));
            proof {
                assert(ws.take(i + 1).drop_last() =~= ws.take(i as int));
                assert(ws.take(i + 1).last() == ws[i as int]);
                if i == 0 {
                    assert(sum_text(ws.take(0), a@) =~= Seq::<char>::empty());
                }
            }
            i += 1;
        }
        assert(ws.take(ws.len() as int) =~= ws);
        push_all(&mut v, &str_chars(" = "));
        let right = str_chars(self.word_right.as_str());
        push_all(&mut v, &word_text_of(&right, a));
        string_from_chars(&v)
    }

    /// The digit of each letter: `mapping: S=9  E=5 ...`.
    pub fn mapping_text(&self, a: &Assignment) -> (r: String)
        requires
            forall|i: int| 0 <= i < self.letters@.len() ==> a@.contains_key(letter(#[trigger] self.letters@[i])),
        ensures
            r@ == "mapping: "@ + mapping_text(self.letters@, a@),
    {
        let mut v: Vec<char> = str_chars("mapping: ");
        let ghost head = v@;
        let mut i: usize = 0;
        while i < self.letters.len()
            invariant
                i <= self.letters@.len(),
                forall|j: int| 0 <= j < self.letters@.len() ==> a@.contains_key(letter(#[trigger] self.letters@[j])),
                v@ == head + mapping_text(self.letters@.take(i as int), a@),
            decreases self.letters@.len() - i,
        {
            if i > 0 {
                push_all(&mut v, &str_chars("  "));
            }
            let c = self.letters[i];
            v.push(c);
            v.push('=');
            let d = a.get_name(&letter_name(c)).unwrap();
            push_all(&mut v, &decimal_chars(d));
            proof {
                let t = self.letters@.take(i + 1);
                assert(t.drop_last() =~= self.letters@.take(i as int));
                assert(t.last() == c);
                if i == 0 {
                    assert(mapping_text(self.letters@.take(0), a@) =~= Seq::<char>::empty());
                }
            }
            i += 1;
        }
        assert(self.letters@.take(self.letters@.len() as int) =~= self.letters@);
        string_from_chars(&v)
    }
}

} // verus!
