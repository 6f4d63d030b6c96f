//! Decimal text: reading a [`BigInteger`] from a string and writing it back.
//!
//! The grammar is an optional `-` in the first position followed by one or
//! more decimal digits. Any other character is an error, and so is a `-`
//! anywhere but in the first position; of several offending characters the
//! one nearest the end of the string is reported. A string in which no
//! character offends but which has no digit, the empty string or a lone
//! `-`, is an error of its own.

use crate::big_integer::BigInteger;
use crate::digits::{
    abs, canonical, digits_valid, lemma_canonical_zero, lemma_msb_value_reverse,
    lemma_value_bounds, lemma_value_div10, msb_value, value,
};
use vstd::prelude::*;

verus! {

/// Why a string is not a decimal integer.
#[derive(Debug, Clone, Copy, PartialEq, Eq)]
pub enum ParseError {
    /// A character that is neither a digit nor a sign, and its position,
    /// counted in characters from the start of the string.
    UnexpectedCharacter(char, usize),
    /// A `-` that is not the first character.
    MisplacedSign,
    /// No character offends, but there is no digit: the string is empty or
    /// a lone `-`.
    NoDigits,
}

/// `c` is one of `0` to `9`.
pub open spec fn is_digit(c: char) -> bool {
    '0' <= c <= '9'
}

/// The digit that the character `c` writes.
pub open spec fn digit_of(c: char) -> i8 {
    (c as u32 - '0' as u32) as i8
}

/// The character that writes the digit `d`.
pub open spec fn digit_char(d: int) -> char {
    if d == 0 {
        '0'
    } else if d == 1 {
        '1'
    } else if d == 2 {
        '2'
    } else if d == 3 {
        '3'
    } else if d == 4 {
        '4'
    } else if d == 5 {
        '5'
    } else if d == 6 {
        '6'
    } else if d == 7 {
        '7'
    } else if d == 8 {
        '8'
    } else {
        '9'
    }
}

/// The character at `i` has no place in a decimal integer: it is not a
/// digit, and not a `-` in the first position either.
pub open spec fn offending(s: Seq<char>, i: int) -> bool {
    !is_digit(s[i]) && !(s[i] == '-' && i == 0)
}

/// The error that the offending character at `i` gives.
pub open spec fn error_at(s: Seq<char>, i: int) -> ParseError {
    if s[i] == '-' {
        ParseError::MisplacedSign
    } else {
        ParseError::UnexpectedCharacter(s[i], i as usize)
    }
}

/// The position of the offending character nearest the end, if there is
/// one.
pub open spec fn last_offending(s: Seq<char>) -> Option<int>
    decreases s.len(),
{
    if s.len() == 0 {
        None
    } else if offending(s, s.len() - 1) {
        Some(s.len() - 1)
    } else {
        last_offending(s.drop_last())
    }
}

/// The digits that a run of digit characters writes, in the same order.
pub open spec fn digits_of(s: Seq<char>) -> Seq<i8> {
    Seq::new(s.len(), |i: int| digit_of(s[i]))
}

/// The string has a sign in front.
pub open spec fn has_sign(s: Seq<char>) -> bool {
    s.len() > 0 && s[0] == '-'
}

/// The string without its sign.
pub open spec fn body(s: Seq<char>) -> Seq<char> {
    if has_sign(s) {
        s.drop_first()
    } else {
        s
    }
}

/// The string follows the grammar: an optional `-` and then one or more
/// digits.
pub open spec fn is_decimal(s: Seq<char>) -> bool {
    &&& body(s).len() > 0
    &&& forall|i: int| 0 <= i < body(s).len() ==> is_digit(#[trigger] body(s)[i])
}

/// The integer that a string free of offending characters writes.
pub open spec fn decimal_value(s: Seq<char>) -> int {
    if has_sign(s) {
        -msb_value(digits_of(body(s)))
    } else {
        msb_value(digits_of(body(s)))
    }
}

/// What reading a string gives: the error for its last offending
/// character; if none offends, the error for a string without digits; and
/// otherwise the integer that the string writes.
pub open spec fn parse_spec(s: Seq<char>) -> Result<int, ParseError> {
    match last_offending(s) {
        Some(i) => Err(error_at(s, i)),
        None => if body(s).len() == 0 {
            Err(ParseError::NoDigits)
        } else {
            Ok(decimal_value(s))
        },
    }
}

/// The decimal digits of `n`, most significant first, without padding;
/// empty for zero.
pub open spec fn nat_string(n: nat) -> Seq<char>
    decreases n,
{
    if n == 0 {
        Seq::empty()
    } else {
        nat_string(n / 10).push(digit_char((n % 10) as int))
    }
}

/// The canonical decimal form of `v`: `0` for zero, otherwise the digits
/// without padding, after a `-` if `v` is negative.
pub open spec fn decimal_string(v: int) -> Seq<char> {
    if v == 0 {
        seq!['0']
    } else if v < 0 {
        seq!['-'] + nat_string(abs(v))
    } else {
        nat_string(abs(v))
    }
}

/// The string is the canonical decimal form of some integer: `0`, or an
/// optional `-` and then digits that do not start with `0`.
pub open spec fn is_canonical_decimal(s: Seq<char>) -> bool {
    ||| s == seq!['0']
    ||| {
        &&& body(s).len() > 0
        &&& body(s)[0] != '0'
        &&& forall|i: int| 0 <= i < body(s).len() ==> is_digit(#[trigger] body(s)[i])
    }
}

/// The characters of a canonical buffer, most significant first.
pub open spec fn digit_chars(s: Seq<i8>) -> Seq<char> {
    Seq::new(s.len(), |i: int| digit_char(s[s.len() - 1 - i] as int))
}

/// `last_offending` finds the greatest offending position, and finds none
/// only if there is none.
pub proof fn lemma_last_offending(s: Seq<char>)
    ensures
        match last_offending(s) {
            Some(i) => 0 <= i < s.len() && offending(s, i) && forall|j: int|
                i < j < s.len() ==> !offending(s, j),
            None => forall|j: int| 0 <= j < s.len() ==> !offending(s, j),
        },
    decreases s.len(),
{
    if s.len() > 0 && !offending(s, s.len() - 1) {
        let t = s.drop_last();
        lemma_last_offending(t);
        assert forall|j: int| 0 <= j < t.len() implies offending(t, j) == offending(s, j) by {
        }
    }
}

/// Reading succeeds on the strings that follow the grammar and on no
/// others.
pub proof fn lemma_parse_follows_grammar(s: Seq<char>)
    ensures
        parse_spec(s) is Ok <==> is_decimal(s),
        parse_spec(s) == Err::<int, ParseError>(ParseError::NoDigits) <==> s.len() == 0 || s
            == seq!['-'],
{
    lemma_last_offending(s);
    let t = body(s);
    if last_offending(s) is None {
        assert forall|i: int| 0 <= i < t.len() implies is_digit(#[trigger] t[i]) by {
            if has_sign(s) {
                assert(!offending(s, i + 1));
                assert(t[i] == s[i + 1]);
            } else {
                assert(!offending(s, i));
            }
        }
        if t.len() == 0 && s.len() > 0 {
            assert(s =~= seq!['-']);
        }
    } else {
        let k = last_offending(s).unwrap();
        if has_sign(s) {
            assert(k > 0);
            assert(t[k - 1] == s[k]);
            assert(!is_digit(t[k - 1]));
        } else {
            assert(t[k] == s[k]);
            assert(!is_digit(t[k]));
        }
        if s == seq!['-'] {
            assert(!offending(s, 0));
        }
    }
}

/// A canonical buffer is written as its digits from the top down.
pub proof fn lemma_nat_string_of_value(s: Seq<i8>)
    requires
        canonical(s),
    ensures
        value(s) >= 0,
        nat_string(value(s) as nat) == digit_chars(s),
    decreases s.len(),
{
    lemma_value_bounds(s);
    lemma_canonical_zero(s);
    if s.len() > 0 {
        let rest = s.drop_first();
        lemma_value_div10(s);
        lemma_nat_string_of_value(rest);
    }
}

/// Digits that do not start with zero write a positive number, and that
/// number is written as those digits.
pub proof fn lemma_nat_string_of_digits(t: Seq<char>)
    requires
        t.len() > 0,
        t[0] != '0',
        forall|i: int| 0 <= i < t.len() ==> is_digit(#[trigger] t[i]),
    ensures
        msb_value(digits_of(t)) > 0,
        nat_string(msb_value(digits_of(t)) as nat) == t,
    decreases t.len(),
{
    let d = digits_of(t);
    let front = t.drop_last();
    assert(d.drop_last() =~= digits_of(front));
    if t.len() == 1 {
        assert(msb_value(d.drop_last()) == 0);
        assert(nat_string(0) =~= Seq::<char>::empty());
    } else {
        lemma_nat_string_of_digits(front);
    }
}

/// A positive number is written as digits that do not start with zero,
/// and the digits read back as the number.
pub proof fn lemma_digits_of_nat_string(n: nat)
    requires
        n > 0,
    ensures
        nat_string(n).len() > 0,
        nat_string(n)[0] != '0',
        forall|i: int| 0 <= i < nat_string(n).len() ==> is_digit(#[trigger] nat_string(n)[i]),
        msb_value(digits_of(nat_string(n))) == n,
    decreases n,
{
    let t = nat_string(n);
    let front = nat_string(n / 10);
    assert(digits_of(t).drop_last() =~= digits_of(front));
    if n / 10 > 0 {
        lemma_digits_of_nat_string(n / 10);
    } else {
        assert(msb_value(digits_of(front)) == 0);
    }
}

/// The characters of a string, in order.
fn collect_chars(text: &str) -> (chars: Vec<char>)
    ensures
        chars@ == text@,
{
    let mut chars: Vec<char> = Vec::new();
    for c in it: text.chars()
        invariant
            chars@ == it.seq().take(it.index() as int),
            it.seq() == text@,
    {
        chars.push(c);
    }
    chars
}

/// Reads a decimal integer: succeeds on an optional `-` followed by one or
/// more digits, and on nothing else.
///
/// The characters are read from the end of the string, so the digits
/// arrive least significant first and the first offending character met
/// is the last one in the string.
pub fn parse(text: &str) -> (r: Result<BigInteger, ParseError>)
    ensures
        match r {
            Ok(v) => v.wf() && parse_spec(text@) == Ok::<int, ParseError>(v@),
            Err(e) => parse_spec(text@) == Err::<int, ParseError>(e),
        },
        r is Ok <==> is_decimal(text@),
        r == Err::<BigInteger, ParseError>(ParseError::NoDigits) <==> text@.len() == 0 || text@
            == seq!['-'],
{
    let chars = collect_chars(text);
    let ghost s = chars@;
    let n = chars.len();
    let mut digits: Vec<i8> = Vec::new();
    let mut negative = false;
    let mut i: usize = n;
    proof {
        lemma_last_offending(s);
    }
    while i > 0
        invariant
            i <= n,
            n == s.len(),
            s == chars@,
            s == text@,
            forall|j: int| i <= j < n ==> !offending(s, j),
            negative <==> i == 0 && has_sign(s),
            digits_valid(digits@),
            digits.len() == if negative {
                n - i - 1
            } else {
                n - i
            },
            forall|k: int| 0 <= k < digits.len() ==> digits@[k] == digit_of(s[n - 1 - k]),
        decreases i,
    {
        i -= 1;
        let c = chars[i];
        if '0' <= c && c <= '9' {
            digits.push((c as u32 - '0' as u32) as i8);
        } else if c == '-' && i == 0 {
            negative = true;
        } else {
            proof {
                assert(offending(s, i as int));
                lemma_last_offending(s);
                lemma_parse_follows_grammar(s);
            }
            if c == '-' {
                return Err(ParseError::MisplacedSign);
            } else {
                return Err(ParseError::UnexpectedCharacter(c, i));
            }
        }
    }
    proof {
        lemma_parse_follows_grammar(s);
    }
    if digits.len() == 0 {
        return Err(ParseError::NoDigits);
    }
    proof {
        let t = body(s);
        assert(digits@ =~= digits_of(t).reverse());
        lemma_msb_value_reverse(digits_of(t));
    }
    Ok(
        BigInteger::from_parts(
            digits,
            if negative {
                -1
            } else {
                1
            },
        ),
    )
}

impl core::str::FromStr for BigInteger {
    type Err = ParseError;

    /// Reads a decimal integer; see [`parse`].
    fn from_str(text: &str) -> (r: Result<BigInteger, ParseError>)
        ensures
            match r {
                Ok(v) => v.wf() && parse_spec(text@) == Ok::<int, ParseError>(v@),
                Err(e) => parse_spec(text@) == Err::<int, ParseError>(e),
            },
            r is Ok <==> is_decimal(text@),
            r == Err::<BigInteger, ParseError>(ParseError::NoDigits) <==> text@.len() == 0
                || text@ == seq!['-'],
    {
        parse(text)
    }
}

/// The one-character string that writes the digit `d`.
fn digit_str(d: i8) -> (r: &'static str)
    requires
        0 <= d <= 9,
    ensures
        r@ == seq![digit_char(d as int)],
{
    proof {
        reveal_strlit("0");
        reveal_strlit("1");
        reveal_strlit("2");
        reveal_strlit("3");
        reveal_strlit("4");
        reveal_strlit("5");
        reveal_strlit("6");
        reveal_strlit("7");
        reveal_strlit("8");
        reveal_strlit("9");
    }
    let r = if d == 0 {
        "0"
    } else if d == 1 {
        "1"
    } else if d == 2 {
        "2"
    } else if d == 3 {
        "3"
    } else if d == 4 {
        "4"
    } else if d == 5 {
        "5"
    } else if d == 6 {
        "6"
    } else if d == 7 {
        "7"
    } else if d == 8 {
        "8"
    } else {
        "9"
    };
    r
}

/// Writes the value in canonical decimal form.
pub fn to_decimal_string(a: &BigInteger) -> (r: String)
    ensures
        r@ == decimal_string(a@),
{
    proof {
        use_type_invariant(a);
        a.lemma_wf_facts();
        lemma_nat_string_of_value(a.magnitude());
    }
    let digits = a.digits();
    let n = digits.len();
    let mut out = String::new();
    if n == 0 {
        proof {
            reveal_strlit("0");
        }
        out.append("0");
        return out;
    }
    if a.signum() < 0 {
        proof {
            reveal_strlit("-");
        }
        out.append("-");
    }
    let ghost prefix = out@;
    assert(prefix =~= if a@ < 0 {
        seq!['-']
    } else {
        Seq::<char>::empty()
    });
    let mut i: usize = n;
    while i > 0
        invariant
            i <= n,
            n == digits.len(),
            digits_valid(digits@),
            out@ == prefix + digit_chars(digits@).take(n - i),
        decreases i,
    {
        i -= 1;
        out.append(digit_str(digits[i]));
    }
    out
}

impl BigInteger {
    /// The value in canonical decimal form; see [`to_decimal_string`].
    pub fn to_string(&self) -> (r: String)
        ensures
            r@ == decimal_string(self@),
    {
        to_decimal_string(self)
    }
}

} // verus!
