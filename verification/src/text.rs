//! Text helpers on sequences of characters: conversion from and to strings,
//! decimal numerals, splitting, trimming.
use vstd::prelude::*;

verus! {

broadcast use vstd::string::group_string_axioms;

/// The characters of a string slice, in order.
pub fn str_chars(s: &str) -> (r: Vec<char>)
    ensures
        r@ == s@,
{
    let mut r: Vec<char> = Vec::new();
    for c in it: s.chars()
        invariant
            it.seq() == s@,
            r@ == it.seq().take(it.index() as int),
    {
        r.push(c);
        assert(r@ =~= it.seq().take(it.index() + 1));
    }
    assert(r@ =~= s@);
    r
}


/// Appends a character to a string.
///
/// Calls `String::push`; the claim is that the string then holds its former
/// characters followed by `c`.
#[verifier::external_body]
pub(crate) fn push_char(s: &mut String, c: char)
    ensures
        final(s)@ == old(s)@.push(c),
{
    s.push(c)
}

/// A string holding the given characters.
pub fn string_from_chars(cs: &Vec<char>) -> (r: String)
    ensures
        r@ == cs@,
{
    let mut r = String::new();
    let mut i: usize = 0;
    while i < cs.len()
        invariant
            i <= cs@.len(),
            r@ == cs@.take(i as int),
        decreases cs@.len() - i,
    {
        push_char(&mut r, cs[i]);
        i += 1;
        assert(r@ =~= cs@.take(i as int));
    }
    assert(cs@.take(cs@.len() as int) =~= cs@);
    r
}

/// The character of a decimal digit.
pub open spec fn digit_char(d: nat) -> char {
    (48 + d) as char
}

/// The decimal numeral of a natural number.
pub open spec fn decimal_nat(n: nat) -> Seq<char>
    decreases n,
{
    if n < 10 {
        seq![digit_char(n)]
    } else {
        decimal_nat(n / 10).push(digit_char(n % 10))
    }
}

/// The decimal numeral of an integer, with a leading `-` when negative.
pub open spec fn decimal(n: int) -> Seq<char> {
    if n < 0 {
        seq!['-'] + decimal_nat((-n) as nat)
    } else {
        decimal_nat(n as nat)
    }
}

fn digit(d: u64) -> (c: char)
    requires
        d < 10,
    ensures
        c == digit_char(d as nat),
{
    let b: u8 = 48 + d as u8;
    b as char
}

/// The decimal numeral of an unsigned integer.
pub fn decimal_u64(m: u64) -> (r: Vec<char>)
    ensures
        r@ == decimal_nat(m as nat),
    decreases m,
{
    if m < 10 {
        let mut v: Vec<char> = Vec::new();
        v.push(digit(m));
        assert(v@ =~= seq![digit_char(m as nat)]);
        v
    } else {
        let mut v = decimal_u64(m / 10);
        v.push(digit(m % 10));
        v
    }
}

/// The sequence padded on the left with spaces to at least `w` characters.
pub open spec fn padded(s: Seq<char>, w: nat) -> Seq<char> {
    if s.len() < w {
        Seq::new((w - s.len()) as nat, |i: int| ' ') + s
    } else {
        s
    }
}

/// The characters, right-aligned in a field of `w` characters.
pub fn pad_left(s: &Vec<char>, w: usize) -> (r: Vec<char>)
    ensures
        r@ == padded(s@, w as nat),
{
    let mut r: Vec<char> = Vec::new();
    if s.len() < w {
        let n: usize = w - s.len();
        let mut i: usize = 0;
        while i < n
            invariant
                i <= n,
                r@ =~= Seq::new(i as nat, |j: int| ' '),
            decreases n - i,
        {
            r.push(' ');
            i += 1;
            assert(r@ =~= Seq::new(i as nat, |j: int| ' '));
        }
    }
    let ghost before = r@;
    push_all(&mut r, s);
    proof {
        if s@.len() < w {
            assert(before =~= Seq::new((w - s@.len()) as nat, |j: int| ' '));
        } else {
            assert(before =~= Seq::<char>::empty());
        }
        assert(r@ =~= padded(s@, w as nat));
    }
    r
}

/// The decimal numeral of an integer.
pub fn decimal_chars(n: i64) -> (r: Vec<char>)
    ensures
        r@ == decimal(n as int),
{
    if n < 0 {
        let m: u64 = (0i128 - n as i128) as u64;
        let digits = decimal_u64(m);
        let mut r: Vec<char> = Vec::new();
        r.push('-');
        let mut i: usize = 0;
        while i < digits.len()
            invariant
                i <= digits@.len(),
                r@ == seq!['-'] + digits@.take(i as int),
            decreases digits@.len() - i,
        {
            r.push(digits[i]);
            i += 1;
            assert(r@ =~= seq!['-'] + digits@.take(i as int));
        }
        assert(digits@.take(digits@.len() as int) =~= digits@);
        r
    } else {
        decimal_u64(n as u64)
    }
}

/// Appends the characters of `b` to `a`.
pub fn push_all(a: &mut Vec<char>, b: &Vec<char>)
    ensures
        final(a)@ == old(a)@ + b@,
{
    let mut i: usize = 0;
    while i < b.len()
        invariant
            i <= b@.len(),
            a@ == old(a)@ + b@.take(i as int),
        decreases b@.len() - i,
    {
        a.push(b[i]);
        i += 1;
        assert(a@ =~= old(a)@ + b@.take(i as int));
    }
    assert(b@.take(b@.len() as int) =~= b@);
}

/// Whether a character has Unicode's White_Space property: the 25 code
/// points U+0009 to U+000D, U+0020, U+0085, U+00A0, U+1680, U+2000 to
/// U+200A, U+2028, U+2029, U+202F, U+205F and U+3000.
pub open spec fn is_ws(c: char) -> bool {
    let n = c as int;
    ||| 0x9 <= n <= 0xd
    ||| n == 0x20
    ||| n == 0x85
    ||| n == 0xa0
    ||| n == 0x1680
    ||| 0x2000 <= n <= 0x200a
    ||| n == 0x2028
    ||| n == 0x2029
    ||| n == 0x202f
    ||| n == 0x205f
    ||| n == 0x3000
}

/// The code point of a character.
pub fn code_point(c: char) -> (n: u32)
    ensures
        n as int == c as int,
{
    c as u32
}

/// Whether a character is white space (what `char::is_whitespace` tells).
pub fn char_is_whitespace(c: char) -> (r: bool)
    ensures
        r == is_ws(c),
{
    let n: u32 = c as u32;
    (0x9 <= n && n <= 0xd) || n == 0x20 || n == 0x85 || n == 0xa0 || n == 0x1680 || (0x2000 <= n && n
        <= 0x200a) || n == 0x2028 || n == 0x2029 || n == 0x202f || n == 0x205f || n == 0x3000
}

/// The sequence without its leading white space.
pub open spec fn trim_start(s: Seq<char>) -> Seq<char>
    decreases s.len(),
{
    if s.len() > 0 && is_ws(s[0]) {
        trim_start(s.drop_first())
    } else {
        s
    }
}

/// The sequence without its trailing white space.
pub open spec fn trim_end(s: Seq<char>) -> Seq<char>
    decreases s.len(),
{
    if s.len() > 0 && is_ws(s.last()) {
        trim_end(s.drop_last())
    } else {
        s
    }
}

/// The sequence without leading and trailing white space.
pub open spec fn trim(s: Seq<char>) -> Seq<char> {
    trim_end(trim_start(s))
}

proof fn lemma_trim_start(s: Seq<char>, i: int)
    requires
        0 <= i <= s.len(),
        forall|k: int| 0 <= k < i ==> is_ws(#[trigger] s[k]),
        i < s.len() ==> !is_ws(s[i]),
    ensures
        trim_start(s) == s.subrange(i, s.len() as int),
    decreases i,
{
    if i > 0 {
        assert forall|k: int| 0 <= k < i - 1 implies is_ws(#[trigger] s.drop_first()[k]) by {
            assert(s.drop_first()[k] == s[k + 1]);
        }
        lemma_trim_start(s.drop_first(), i - 1);
        assert(s.drop_first().subrange(i - 1, s.drop_first().len() as int) =~= s.subrange(
            i,
            s.len() as int,
        ));
        assert(is_ws(s[0]));
    } else {
        assert(s.subrange(0, s.len() as int) =~= s);
    }
}

proof fn lemma_trim_end(s: Seq<char>, j: int)
    requires
        0 <= j <= s.len(),
        forall|k: int| j <= k < s.len() ==> is_ws(#[trigger] s[k]),
        j > 0 ==> !is_ws(s[j - 1]),
    ensures
        trim_end(s) == s.subrange(0, j),
    decreases s.len() - j,
{
    if j < s.len() {
        assert forall|k: int| j <= k < s.drop_last().len() implies is_ws(#[trigger] s.drop_last()[k]) by {
            assert(s.drop_last()[k] == s[k]);
        }
        assert(is_ws(s[s.len() - 1]));
        lemma_trim_end(s.drop_last(), j);
        assert(s.drop_last().subrange(0, j) =~= s.subrange(0, j));
    } else {
        assert(s.subrange(0, j) =~= s);
    }
}

/// The characters without leading and trailing white space.
pub fn trim_chars(s: &Vec<char>) -> (r: Vec<char>)
    ensures
        r@ == trim(s@),
{
    let mut i: usize = 0;
    while i < s.len() && char_is_whitespace(s[i])
        invariant
            i <= s@.len(),
            forall|k: int| 0 <= k < i ==> is_ws(#[trigger] s@[k]),
        decreases s@.len() - i,
    {
        i += 1;
    }
    proof {
        lemma_trim_start(s@, i as int);
    }
    let ghost t = s@.subrange(i as int, s@.len() as int);
    let mut j: usize = s.len();
    while j > i && char_is_whitespace(s[j - 1])
        invariant
            i <= j <= s@.len(),
            forall|k: int| j <= k < s@.len() ==> is_ws(#[trigger] s@[k]),
        decreases j,
    {
        j -= 1;
    }
    proof {
        assert forall|k: int| j - i <= k < t.len() implies is_ws(#[trigger] t[k]) by {
            assert(t[k] == s@[k + i]);
        }
        if j > i {
            assert(t[j - i - 1] == s@[j - 1]);
        }
        lemma_trim_end(t, j - i);
    }
    let mut r: Vec<char> = Vec::new();
    let mut k: usize = i;
    while k < j
        invariant
            i <= k <= j,
            j <= s@.len(),
            r@ == s@.subrange(i as int, k as int),
        decreases j - k,
    {
        r.push(s[k]);
        k += 1;
        assert(r@ =~= s@.subrange(i as int, k as int));
    }
    assert(r@ =~= t.subrange(0, j - i));
    r
}

/// The pieces of a sequence between occurrences of a separator, as
/// `str::split` with a `char` pattern gives them.
pub open spec fn split_on(s: Seq<char>, sep: char) -> Seq<Seq<char>>
    decreases s.len(),
{
    if s.len() == 0 {
        seq![Seq::<char>::empty()]
    } else {
        let p = split_on(s.drop_last(), sep);
        if s.last() == sep {
            p.push(Seq::<char>::empty())
        } else {
            p.update(p.len() - 1, p.last().push(s.last()))
        }
    }
}

/// How many times a character occurs.
pub open spec fn count_char(s: Seq<char>, c: char) -> nat
    decreases s.len(),
{
    if s.len() == 0 {
        0
    } else {
        count_char(s.drop_last(), c) + if s.last() == c {
            1nat
        } else {
            0nat
        }
    }
}

pub proof fn lemma_split_len(s: Seq<char>, sep: char)
    ensures
        split_on(s, sep).len() == count_char(s, sep) + 1,
    decreases s.len(),
{
    if s.len() > 0 {
        lemma_split_len(s.drop_last(), sep);
    }
}

/// The views of a list of character lists.
pub open spec fn views_of(v: Seq<Vec<char>>) -> Seq<Seq<char>> {
    v.map_values(|w: Vec<char>| w@)
}

/// Splits at each occurrence of `sep`.
pub fn split_chars(s: &Vec<char>, sep: char) -> (r: Vec<Vec<char>>)
    ensures
        views_of(r@) == split_on(s@, sep),
{
    let mut parts: Vec<Vec<char>> = Vec::new();
    let mut cur: Vec<char> = Vec::new();
    let mut k: usize = 0;
    while k < s.len()
        invariant
            k <= s@.len(),
            views_of(parts@).push(cur@) == split_on(s@.take(k as int), sep),
        decreases s@.len() - k,
    {
        let c = s[k];
        let ghost before = views_of(parts@).push(cur@);
        assert(s@.take(k + 1).drop_last() =~= s@.take(k as int));
        if c == sep {
            parts.push(cur);
            cur = Vec::new();
            assert(views_of(parts@).push(cur@) =~= before.push(Seq::<char>::empty()));
        } else {
            cur.push(c);
            assert(views_of(parts@).push(cur@) =~= before.update(
                before.len() - 1,
                before.last().push(c),
            ));
        }
        k += 1;
    }
    assert(s@.take(s@.len() as int) =~= s@);
    parts.push(cur);
    parts
}

/// Whether every character is ASCII.
pub open spec fn all_ascii(s: Seq<char>) -> bool {
    forall|i: int| 0 <= i < s.len() ==> (#[trigger] s[i] as int) < 128
}

/// Whether a character is an ASCII lower-case letter.
pub open spec fn is_ascii_lower(c: char) -> bool {
    97 <= (c as int) <= 122
}

/// The ASCII upper case of a character: `a` to `z` become `A` to `Z`, every
/// other character stays.
pub open spec fn ascii_upper(c: char) -> char {
    if is_ascii_lower(c) {
        ((c as int) - 32) as char
    } else {
        c
    }
}

/// Two texts that differ at most in the case of ASCII letters.
pub open spec fn same_but_case(s: Seq<char>, t: Seq<char>) -> bool {
    &&& s.len() == t.len()
    &&& forall|i: int| 0 <= i < s.len() ==> ascii_upper(#[trigger] s[i]) == ascii_upper(t[i])
}

/// A character that is no ASCII letter is only ever matched, case aside, by
/// itself.
proof fn lemma_upper_eq_nonletter(c: char, d: char)
    requires
        ascii_upper(c) == ascii_upper(d),
        !is_ascii_lower(c),
        !(65 <= (c as int) <= 90),
    ensures
        c == d,
{
}

/// White space is matched, case aside, only by itself.
proof fn lemma_ws_case(c: char, d: char)
    requires
        ascii_upper(c) == ascii_upper(d),
    ensures
        is_ws(c) == is_ws(d),
{
    if is_ws(c) {
        lemma_upper_eq_nonletter(c, d);
    }
    if is_ws(d) {
        lemma_upper_eq_nonletter(d, c);
    }
}

/// Removing the same ends keeps two texts equal but for case.
pub proof fn lemma_trim_case(s: Seq<char>, t: Seq<char>)
    requires
        same_but_case(s, t),
    ensures
        same_but_case(trim(s), trim(t)),
        all_ascii(s) ==> all_ascii(trim(s)),
{
    lemma_trim_start_case(s, t);
    lemma_trim_end_case(trim_start(s), trim_start(t));
}

proof fn lemma_trim_start_case(s: Seq<char>, t: Seq<char>)
    requires
        same_but_case(s, t),
    ensures
        same_but_case(trim_start(s), trim_start(t)),
        all_ascii(s) ==> all_ascii(trim_start(s)),
    decreases s.len(),
{
    if s.len() > 0 {
        lemma_ws_case(s[0], t[0]);
        if is_ws(s[0]) {
            assert(same_but_case(s.drop_first(), t.drop_first())) by {
                assert forall|i: int| 0 <= i < s.drop_first().len() implies ascii_upper(
                    #[trigger] s.drop_first()[i],
                ) == ascii_upper(t.drop_first()[i]) by {
                    assert(s.drop_first()[i] == s[i + 1] && t.drop_first()[i] == t[i + 1]);
                }
            }
            if all_ascii(s) {
                assert forall|i: int| 0 <= i < s.drop_first().len() implies (#[trigger] s.drop_first()[i] as int)
                    < 128 by {
                    assert(s.drop_first()[i] == s[i + 1]);
                }
            }
            lemma_trim_start_case(s.drop_first(), t.drop_first());
        }
    }
}

proof fn lemma_trim_end_case(s: Seq<char>, t: Seq<char>)
    requires
        same_but_case(s, t),
    ensures
        same_but_case(trim_end(s), trim_end(t)),
        all_ascii(s) ==> all_ascii(trim_end(s)),
    decreases s.len(),
{
    if s.len() > 0 {
        lemma_ws_case(s.last(), t.last());
        if is_ws(s.last()) {
            assert(same_but_case(s.drop_last(), t.drop_last())) by {
                assert forall|i: int| 0 <= i < s.drop_last().len() implies ascii_upper(
                    #[trigger] s.drop_last()[i],
                ) == ascii_upper(t.drop_last()[i]) by {
                    assert(s.drop_last()[i] == s[i] && t.drop_last()[i] == t[i]);
                }
            }
            if all_ascii(s) {
                assert forall|i: int| 0 <= i < s.drop_last().len() implies (#[trigger] s.drop_last()[i] as int) < 128 by {
                    assert(s.drop_last()[i] == s[i]);
                }
            }
            lemma_trim_end_case(s.drop_last(), t.drop_last());
        }
    }
}

/// Splitting two texts that are equal but for case at a character that is
/// no letter gives pieces that are equal but for case; the pieces of ASCII
/// text are ASCII.
pub proof fn lemma_split_case(s: Seq<char>, t: Seq<char>, sep: char)
    requires
        same_but_case(s, t),
        !is_ascii_lower(sep),
        !(65 <= (sep as int) <= 90),
    ensures
        split_on(s, sep).len() == split_on(t, sep).len(),
        forall|k: int|
            0 <= k < split_on(s, sep).len() ==> same_but_case(#[trigger] split_on(s, sep)[k], split_on(t, sep)[k]),
        all_ascii(s) ==> forall|k: int| 0 <= k < split_on(s, sep).len() ==> all_ascii(#[trigger] split_on(s, sep)[k]),
    decreases s.len(),
{
    if s.len() > 0 {
        let s0 = s.drop_last();
        let t0 = t.drop_last();
        assert(same_but_case(s0, t0)) by {
            assert forall|i: int| 0 <= i < s0.len() implies ascii_upper(#[trigger] s0[i]) == ascii_upper(t0[i]) by {
                assert(s0[i] == s[i] && t0[i] == t[i]);
            }
        }
        if all_ascii(s) {
            assert forall|i: int| 0 <= i < s0.len() implies (#[trigger] s0[i] as int) < 128 by {
                assert(s0[i] == s[i]);
            }
        }
        lemma_split_case(s0, t0, sep);
        let x = s.last();
        let y = t.last();
        assert(ascii_upper(x) == ascii_upper(y)) by {
            assert(x == s[s.len() - 1] && y == t[t.len() - 1]);
        }
        if x == sep {
            lemma_upper_eq_nonletter(x, y);
        }
        if y == sep {
            lemma_upper_eq_nonletter(y, x);
        }
        let ps = split_on(s0, sep);
        let pt = split_on(t0, sep);
        lemma_split_len(s0, sep);
        assert(same_but_case(ps[ps.len() - 1], pt[ps.len() - 1]));
        if all_ascii(s) {
            assert(all_ascii(ps[ps.len() - 1]));
        }
        if x != sep {
            let ls = ps.last().push(x);
            let lt = pt.last().push(y);
            assert(same_but_case(ps.last(), pt.last()));
            assert(same_but_case(ls, lt)) by {
                assert forall|i: int| 0 <= i < ls.len() implies ascii_upper(#[trigger] ls[i]) == ascii_upper(lt[i]) by {
                    if i < ps.last().len() {
                        assert(ls[i] == ps.last()[i] && lt[i] == pt.last()[i]);
                    }
                }
            }
            if all_ascii(s) {
                assert(all_ascii(ps.last()));
                assert forall|i: int| 0 <= i < ls.len() implies (#[trigger] ls[i] as int) < 128 by {
                    if i < ps.last().len() {
                        assert(ls[i] == ps.last()[i]);
                    } else {
                        assert(ls[i] == s[s.len() - 1]);
                    }
                }
            }
        }
    }
}

} // verus!
