//! How a literal of a filter expression is typed.

use vstd::prelude::*;

use crate::command::DataType;
use crate::text::{chars_of, find_from, find_pattern};

verus! {

pub open spec fn is_digit(c: char) -> bool {
    '0' <= c && c <= '9'
}

/// A non-empty run of decimal digits.
pub open spec fn all_digits(s: Seq<char>) -> bool {
    s.len() > 0 && forall|i: int| 0 <= i < s.len() ==> is_digit(#[trigger] s[i])
}

/// `c` is the character `w`, or its ASCII upper-case form.
pub open spec fn same_letter(c: char, w: char) -> bool {
    c == w || ('A' <= c && c <= 'Z' && (c as int) + 32 == (w as int))
}

/// `s` spells the lower-case word `w`, ignoring ASCII case.
pub open spec fn spells(s: Seq<char>, w: Seq<char>) -> bool {
    s.len() == w.len() && forall|i: int| 0 <= i < s.len() ==> same_letter(#[trigger] s[i], w[i])
}

pub open spec fn is_sign(c: char) -> bool {
    c == '+' || c == '-'
}

/// The exponent of a number: digits with an optional sign.
pub open spec fn exponent(x: Seq<char>) -> bool {
    all_digits(x) || (x.len() > 0 && is_sign(x[0]) && all_digits(x.drop_first()))
}

/// An unsigned decimal floating-point number without a fraction part, or one
/// of the special words `inf`, `infinity` and `nan`.
pub open spec fn unsigned_number(t: Seq<char>) -> bool {
    ||| spells(t, seq!['i', 'n', 'f'])
    ||| spells(t, seq!['i', 'n', 'f', 'i', 'n', 'i', 't', 'y'])
    ||| spells(t, seq!['n', 'a', 'n'])
    ||| all_digits(t)
    ||| exists|k: int|
        0 < k < t.len() && all_digits(t.subrange(0, k)) && (t[k] == 'e' || t[k] == 'E')
            && #[trigger] exponent(t.subrange(k + 1, t.len() as int))
}

/// The text reads as a floating-point number and holds no period: the
/// grammar of decimal floats restricted to forms without a fraction part.
pub open spec fn integer_literal(t: Seq<char>) -> bool {
    unsigned_number(t) || (t.len() > 0 && is_sign(t[0]) && unsigned_number(t.drop_first()))
}

/// Exactly two periods: three dot-separated segments.
pub open spec fn attribute_name(t: Seq<char>) -> bool {
    match find_from(t, seq!['.'], 0) {
        Some(a) => match find_from(t, seq!['.'], a + 1) {
            Some(b) => find_from(t, seq!['.'], b + 1) is None,
            None => false,
        },
        None => false,
    }
}

/// The kind of a literal.
pub open spec fn literal_type(t: Seq<char>) -> DataType {
    if integer_literal(t) {
        DataType::Integer
    } else if attribute_name(t) {
        DataType::Attribute
    } else {
        DataType::String
    }
}

fn digits_between(t: &Vec<char>, lo: usize, hi: usize) -> (r: bool)
    requires
        lo <= hi <= t.len(),
    ensures
        r == all_digits(t@.subrange(lo as int, hi as int)),
{
    if lo == hi {
        return false;
    }
    let mut i: usize = lo;
    while i < hi
        invariant
            lo <= i <= hi,
            hi <= t.len(),
            forall|j: int| lo <= j < i ==> is_digit(#[trigger] t@[j]),
        decreases hi - i,
    {
        if !('0' <= t[i] && t[i] <= '9') {
            assert(t@.subrange(lo as int, hi as int)[i - lo] == t@[i as int]);
            return false;
        }
        i = i + 1;
    }
    assert forall|j: int| 0 <= j < hi - lo implies is_digit(
        #[trigger] t@.subrange(lo as int, hi as int)[j],
    ) by {
        assert(t@.subrange(lo as int, hi as int)[j] == t@[lo + j]);
    }
    true
}

fn is_upper_of(c: char, w: char) -> (r: bool)
    ensures
        r == ('A' <= c && c <= 'Z' && (c as int) + 32 == (w as int)),
{
    match w {
        'a' => c == 'A',
        'b' => c == 'B',
        'c' => c == 'C',
        'd' => c == 'D',
        'e' => c == 'E',
        'f' => c == 'F',
        'g' => c == 'G',
        'h' => c == 'H',
        'i' => c == 'I',
        'j' => c == 'J',
        'k' => c == 'K',
        'l' => c == 'L',
        'm' => c == 'M',
        'n' => c == 'N',
        'o' => c == 'O',
        'p' => c == 'P',
        'q' => c == 'Q',
        'r' => c == 'R',
        's' => c == 'S',
        't' => c == 'T',
        'u' => c == 'U',
        'v' => c == 'V',
        'w' => c == 'W',
        'x' => c == 'X',
        'y' => c == 'Y',
        'z' => c == 'Z',
        _ => false,
    }
}

fn spells_word(t: &Vec<char>, w: &Vec<char>) -> (r: bool)
    ensures
        r == spells(t@, w@),
{
    if t.len() != w.len() {
        return false;
    }
    let mut i: usize = 0;
    while i < t.len()
        invariant
            i <= t.len(),
            t.len() == w.len(),
            forall|j: int| 0 <= j < i ==> same_letter(#[trigger] t@[j], w@[j]),
        decreases t.len() - i,
    {
        let c = t[i];
        let x = w[i];
        if !(c == x || is_upper_of(c, x)) {
            return false;
        }
        i = i + 1;
    }
    true
}

fn exponent_from(t: &Vec<char>, lo: usize) -> (r: bool)
    requires
        lo <= t.len(),
    ensures
        r == exponent(t@.subrange(lo as int, t.len() as int)),
{
    let ghost x = t@.subrange(lo as int, t.len() as int);
    if digits_between(t, lo, t.len()) {
        return true;
    }
    if lo < t.len() && (t[lo] == '+' || t[lo] == '-') {
        assert(x.drop_first() =~= t@.subrange(lo + 1, t.len() as int));
        return digits_between(t, lo + 1, t.len());
    }
    false
}

fn unsigned_number_exec(t: &Vec<char>) -> (r: bool)
    ensures
        r == unsigned_number(t@),
{
    let inf = vec!['i', 'n', 'f'];
    let infinity = vec!['i', 'n', 'f', 'i', 'n', 'i', 't', 'y'];
    let nan = vec!['n', 'a', 'n'];
    if spells_word(t, &inf) || spells_word(t, &infinity) || spells_word(t, &nan) {
        return true;
    }
    let mut k: usize = 0;
    while k < t.len() && '0' <= t[k] && t[k] <= '9'
        invariant
            k <= t.len(),
            forall|j: int| 0 <= j < k ==> is_digit(#[trigger] t@[j]),
        decreases t.len() - k,
    {
        k = k + 1;
    }
    assert(t@.subrange(0, t.len() as int) =~= t@);
    let d = digits_between(t, 0, t.len());
    if d {
        return true;
    }
    let ghost claim = exists|q: int|
        0 < q < t.len() && all_digits(t@.subrange(0, q)) && (t@[q] == 'e' || t@[q] == 'E')
            && #[trigger] exponent(t@.subrange(q + 1, t.len() as int));
    proof {
        if claim {
            let q = choose|q: int|
                0 < q < t.len() && all_digits(t@.subrange(0, q)) && (t@[q] == 'e' || t@[q] == 'E')
                    && #[trigger] exponent(t@.subrange(q + 1, t.len() as int));
            if q < k {
                assert(is_digit(t@[q]));
            }
            if k < q {
                assert(t@.subrange(0, q)[k as int] == t@[k as int]);
            }
            assert(q == k);
        }
    }
    if k == 0 || k >= t.len() {
        if k >= t.len() {
            assert forall|j: int| 0 <= j < t.len() implies is_digit(#[trigger] t@[j]) by {}
            assert(t.len() == 0);
        }
        return false;
    }
    if t[k] == 'e' || t[k] == 'E' {
        let e = exponent_from(t, k + 1);
        proof {
            assert forall|j: int| 0 <= j < k implies is_digit(#[trigger] t@.subrange(0, k as int)[j]) by {
                assert(t@.subrange(0, k as int)[j] == t@[j]);
            }
            if e {
                assert(exponent(t@.subrange(k + 1, t.len() as int)));
            }
        }
        return e;
    }
    false
}

/// Decides `integer_literal`.
pub fn is_integer_literal(t: &Vec<char>) -> (r: bool)
    ensures
        r == integer_literal(t@),
{
    if unsigned_number_exec(t) {
        return true;
    }
    if t.len() > 0 && (t[0] == '+' || t[0] == '-') {
        let mut rest: Vec<char> = Vec::new();
        let mut i: usize = 1;
        while i < t.len()
            invariant
                1 <= i <= t.len(),
                rest@ == t@.subrange(1, i as int),
            decreases t.len() - i,
        {
            rest.push(t[i]);
            i = i + 1;
        }
        assert(rest@ =~= t@.drop_first());
        return unsigned_number_exec(&rest);
    }
    false
}

/// Whether `string` names an attribute: three segments separated by periods.
pub fn string_is_attribute(string: String) -> (r: bool)
    ensures
        r == attribute_name(string@),
{
    let t = chars_of(string.as_str());
    let dot = vec!['.'];
    assert(dot@ =~= seq!['.']);
    match find_pattern(&t, &dot, 0) {
        Some(a) => match find_pattern(&t, &dot, a + 1) {
            Some(b) => find_pattern(&t, &dot, b + 1).is_none(),
            None => false,
        },
        None => false,
    }
}

/// The kind of a literal: `Integer` for a number without a period,
/// `Attribute` for a three-segment dotted name, `String` otherwise.
pub fn type_literal(literal: &String) -> (r: DataType)
    ensures
        r == literal_type(literal@),
{
    let t = chars_of(literal.as_str());
    if is_integer_literal(&t) {
        DataType::Integer
    } else if string_is_attribute(literal.clone()) {
        DataType::Attribute
    } else {
        DataType::String
    }
}

} // verus!
