use vstd::prelude::*;
use crate::token::OperandType;

verus! {

pub open spec fn is_digit(c: char) -> bool {
    '0' <= c <= '9'
}

pub open spec fn all_digits(s: Seq<char>) -> bool {
    forall|i: int| 0 <= i < s.len() ==> is_digit(#[trigger] s[i])
}

/// A numeric literal: one or more digits, optionally followed by a dot and
/// one or more digits.
pub open spec fn is_number_literal(s: Seq<char>) -> bool {
    (s.len() > 0 && all_digits(s)) || exists|k: int|
        0 < k < s.len() - 1 && #[trigger] s[k] == '.' && all_digits(s.subrange(0, k))
            && all_digits(s.subrange(k + 1, s.len() as int))
}

/// The kind of a one-character operator or parenthesis.
pub open spec fn char_kind(c: char) -> Option<OperandType> {
    if c == '+' {
        Some(OperandType::Add)
    } else if c == '-' {
        Some(OperandType::Sub)
    } else if c == '*' {
        Some(OperandType::Mul)
    } else if c == '/' {
        Some(OperandType::Div)
    } else if c == '(' {
        Some(OperandType::Open)
    } else if c == ')' {
        Some(OperandType::Close)
    } else {
        None
    }
}

/// The kind of a lexeme: a number, an operator or a parenthesis; `None` for
/// any other text.
pub open spec fn lexeme_kind(s: Seq<char>) -> Option<OperandType> {
    if is_number_literal(s) {
        Some(OperandType::Number)
    } else if s.len() == 1 {
        char_kind(s[0])
    } else {
        None
    }
}

/// The characters of each lexeme.
pub open spec fn lexeme_views(lxs: Seq<Vec<char>>) -> Seq<Seq<char>> {
    lxs.map_values(|l: Vec<char>| l@)
}

/// A copy of a literal's characters.
pub(crate) fn copy_chars(s: &Vec<char>) -> (r: Vec<char>)
    ensures
        r@ == s@,
{
    let mut r: Vec<char> = Vec::new();
    let mut i: usize = 0;
    while i < s.len()
        invariant
            0 <= i <= s.len(),
            r@ == s@.subrange(0, i as int),
        decreases s.len() - i,
    {
        r.push(s[i]);
        i += 1;
    }
    assert(s@.subrange(0, s.len() as int) == s@);
    r
}

fn is_digit_char(c: char) -> (r: bool)
    ensures
        r == is_digit(c),
{
    '0' <= c && c <= '9'
}

/// Where a string starts with the digits before `i` and has a non-digit at
/// `i`, a dot that has only digits before it stands at `i`.
proof fn lemma_dot_position(s: Seq<char>, i: int, k: int)
    requires
        0 <= i < s.len(),
        all_digits(s.subrange(0, i)),
        !is_digit(s[i]),
        0 < k < s.len(),
        s[k] == '.',
        all_digits(s.subrange(0, k)),
    ensures
        k == i,
{
    if k < i {
        assert(s.subrange(0, i)[k] == s[k]);
    } else if k > i {
        assert(s.subrange(0, k)[i] == s[i]);
    }
}

/// Whether `s` is a numeric literal.
pub fn is_number(s: &Vec<char>) -> (r: bool)
    ensures
        r == is_number_literal(s@),
{
    let n = s.len();
    let mut i: usize = 0;
    while i < n && is_digit_char(s[i])
        invariant
            0 <= i <= n,
            n == s.len(),
            all_digits(s@.subrange(0, i as int)),
        decreases n - i,
    {
        assert(s@.subrange(0, i + 1) == s@.subrange(0, i as int).push(s@[i as int]));
        i += 1;
    }
    if i == n {
        assert(s@.subrange(0, n as int) == s@);
        if n == 0 {
            return false;
        }
        return true;
    }
    if i == 0 || s[i] != '.' || i + 1 >= n {
        proof {
            if is_number_literal(s@) {
                assert(!all_digits(s@)) by {
                    assert(!is_digit(s@[i as int]));
                }
                let k = choose|k: int|
                    0 < k < s@.len() - 1 && #[trigger] s@[k] == '.' && all_digits(s@.subrange(0, k))
                        && all_digits(s@.subrange(k + 1, s@.len() as int));
                lemma_dot_position(s@, i as int, k);
            }
        }
        return false;
    }
    let mut j: usize = i + 1;
    while j < n && is_digit_char(s[j])
        invariant
            i + 1 <= j <= n,
            n == s.len(),
            all_digits(s@.subrange(i + 1, j as int)),
        decreases n - j,
    {
        assert(s@.subrange(i + 1, j + 1) == s@.subrange(i + 1, j as int).push(s@[j as int]));
        j += 1;
    }
    if j == n {
        assert(s@[i as int] == '.');
        assert(s@.subrange(i + 1, n as int) == s@.subrange(i + 1, s@.len() as int));
        return true;
    }
    proof {
        if is_number_literal(s@) {
            assert(!all_digits(s@)) by {
                assert(!is_digit(s@[i as int]));
            }
            let k = choose|k: int|
                0 < k < s@.len() - 1 && #[trigger] s@[k] == '.' && all_digits(s@.subrange(0, k))
                    && all_digits(s@.subrange(k + 1, s@.len() as int));
            lemma_dot_position(s@, i as int, k);
            assert(s@.subrange(k + 1, s@.len() as int)[j - k - 1] == s@[j as int]);
        }
    }
    false
}

/// The kind of a lexeme, as `lexeme_kind` states it.
pub fn classify(s: &Vec<char>) -> (r: Option<OperandType>)
    ensures
        r == lexeme_kind(s@),
{
    if is_number(s) {
        Some(OperandType::Number)
    } else if s.len() == 1 {
        let c = s[0];
        if c == '+' {
            Some(OperandType::Add)
        } else if c == '-' {
            Some(OperandType::Sub)
        } else if c == '*' {
            Some(OperandType::Mul)
        } else if c == '/' {
            Some(OperandType::Div)
        } else if c == '(' {
            Some(OperandType::Open)
        } else if c == ')' {
            Some(OperandType::Close)
        } else {
            None
        }
    } else {
        None
    }
}

} // verus!
