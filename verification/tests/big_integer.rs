use minis::big_integer::BigInteger;
use minis::division::{checked_division, division, DivisionPrecondition};
use minis::text::{parse, to_decimal_string, ParseError};
use std::cmp::Ordering;

fn big_int(text: &str) -> BigInteger {
    text.parse::<BigInteger>().unwrap()
}

#[test]
fn add_sub() {
    assert_eq!(big_int("-42") + big_int("42"), BigInteger::zero());
    assert_eq!(big_int("120") - big_int("132"), big_int("-12"));
}

#[test]
fn mul() {
    assert_eq!(big_int("42") * big_int("42"), big_int("1764"));
    assert_eq!(big_int("-42") * -big_int("42"), big_int("1764"));
    assert_eq!(big_int("0") * big_int("42"), big_int("0"));
    assert_eq!(big_int("42") * big_int("1764"), big_int("74088"));
}

#[test]
fn div() {
    assert_eq!(division(big_int("141"), big_int("7")), big_int("20"));
    assert_eq!(division(big_int("10"), big_int("2")), big_int("5"));
    assert_eq!(division(big_int("2"), big_int("42")), big_int("0"));
    assert_eq!(division(big_int("121"), big_int("11")), big_int("11"));
}

#[test]
fn negative_times_negative_is_positive() {
    assert_eq!(big_int("-42") * big_int("-42"), big_int("1764"));
    assert_eq!(big_int("-42") * big_int("42"), big_int("-1764"));
}

#[test]
fn division_keeps_low_zero_places() {
    assert_eq!(division(big_int("100"), big_int("2")), big_int("50"));
    assert_eq!(division(big_int("7000"), big_int("7")), big_int("1000"));
    assert_eq!(division(big_int("0"), big_int("7")), big_int("0"));
    assert_eq!(division(big_int("999"), big_int("1")), big_int("999"));
}

#[test]
fn division_digit_bound_for_every_leading_digit() {
    for lead in 1..=9u32 {
        let divisor = format!("{}7", lead);
        let d: u64 = divisor.parse().unwrap();
        for k in [1u64, 5, 9] {
            for delta in [0u64, 1] {
                let below = d * k * 100 - 1 + delta;
                let q = division(big_int(&below.to_string()), big_int(&divisor));
                assert_eq!(q, big_int(&(below / d).to_string()));
            }
        }
    }
}

#[test]
fn division_bound_holds() {
    let x = big_int("123456789012345678901234567890");
    let y = big_int("987654321");
    let q = division(x.clone(), y.clone());
    assert_eq!(q, big_int("124999998873437499901"));
    let below = q.clone() * y.clone();
    let above = (q + big_int("1")) * y;
    assert!(below <= x);
    assert!(x < above);
}

#[test]
fn checked_division_reports_bad_operands() {
    assert_eq!(checked_division(big_int("141"), big_int("7")), Ok(big_int("20")));
    assert_eq!(checked_division(big_int("-1"), big_int("7")), Err(DivisionPrecondition));
    assert_eq!(checked_division(big_int("1"), big_int("0")), Err(DivisionPrecondition));
    assert_eq!(checked_division(big_int("1"), big_int("-3")), Err(DivisionPrecondition));
}

#[test]
fn round_trip_of_canonical_strings() {
    for s in ["0", "7", "-7", "10", "-10", "1764", "-74088", "100000000000000000000000001"] {
        assert_eq!(to_decimal_string(&big_int(s)), s);
        assert_eq!(big_int(s).to_string(), s);
    }
}

#[test]
fn parse_normalizes() {
    assert_eq!(big_int("007"), big_int("7"));
    assert_eq!(big_int("-0"), BigInteger::zero());
    assert_eq!(big_int("-000"), BigInteger::zero());
    assert_eq!(to_decimal_string(&big_int("-0012")), "-12");
}

#[test]
fn parse_errors() {
    assert_eq!(parse("12a4"), Err(ParseError::UnexpectedCharacter('a', 2)));
    assert_eq!(parse("+5"), Err(ParseError::UnexpectedCharacter('+', 0)));
    assert_eq!(parse("4-2"), Err(ParseError::MisplacedSign));
    assert_eq!(parse("--42"), Err(ParseError::MisplacedSign));
    assert_eq!(parse("42-"), Err(ParseError::MisplacedSign));
    assert_eq!(parse("a1b"), Err(ParseError::UnexpectedCharacter('b', 2)));
    assert_eq!(parse("1é2x"), Err(ParseError::UnexpectedCharacter('x', 3)));
    assert_eq!(parse("1é2"), Err(ParseError::UnexpectedCharacter('é', 1)));
    assert!("1 2".parse::<BigInteger>().is_err());
}

#[test]
fn parse_asks_for_a_digit() {
    assert_eq!(parse(""), Err(ParseError::NoDigits));
    assert_eq!(parse("-"), Err(ParseError::NoDigits));
    assert_eq!("".parse::<BigInteger>(), Err(ParseError::NoDigits));
    assert_eq!("-".parse::<BigInteger>(), Err(ParseError::NoDigits));
    assert_eq!(parse("--"), Err(ParseError::MisplacedSign));
    assert_eq!(parse("-x"), Err(ParseError::UnexpectedCharacter('x', 1)));
    assert_eq!(parse("-0"), Ok(BigInteger::zero()));
    assert_eq!(parse("0"), Ok(BigInteger::zero()));
}

#[test]
fn commutativity_on_samples() {
    let samples = ["0", "1", "-1", "9", "10", "-99", "100", "12345678901234567890", "-98765432109876543210"];
    for a in samples {
        for b in samples {
            assert_eq!(big_int(a) + big_int(b), big_int(b) + big_int(a));
            assert_eq!(big_int(a) * big_int(b), big_int(b) * big_int(a));
        }
    }
}

#[test]
fn additive_inverse_on_samples() {
    for a in ["0", "1", "-1", "1000", "-999", "12345678901234567890"] {
        assert_eq!(big_int(a) + (-big_int(a)), BigInteger::zero());
    }
}

#[test]
fn associativity_and_distributivity_on_samples() {
    let samples = ["0", "5", "-17", "999", "-1000", "123456789123456789"];
    for a in samples {
        for b in samples {
            for c in samples {
                assert_eq!(
                    (big_int(a) + big_int(b)) + big_int(c),
                    big_int(a) + (big_int(b) + big_int(c))
                );
                assert_eq!(
                    big_int(a) * (big_int(b) + big_int(c)),
                    big_int(a) * big_int(b) + big_int(a) * big_int(c)
                );
            }
        }
    }
}

#[test]
fn compare_is_sign_of_difference() {
    let samples = ["0", "5", "-5", "17", "-17", "100", "99", "-100"];
    for a in samples {
        for b in samples {
            let expected = match (big_int(a) - big_int(b)).signum() {
                1 => Ordering::Greater,
                0 => Ordering::Equal,
                _ => Ordering::Less,
            };
            assert_eq!(minis::compare::compare(&big_int(a), &big_int(b)), expected);
            assert_eq!(big_int(a).cmp(&big_int(b)), expected);
            assert_eq!(big_int(a).partial_cmp(&big_int(b)), Some(expected));
            let (x, y): (i64, i64) = (a.parse().unwrap(), b.parse().unwrap());
            assert_eq!(expected, x.cmp(&y));
        }
    }
}

#[test]
fn multiplication_matches_native_products() {
    let samples: [i64; 9] = [0, 1, -1, 9, 10, 99, -100, 12345, 99999];
    for x in samples {
        for y in samples {
            assert_eq!(
                big_int(&x.to_string()) * big_int(&y.to_string()),
                big_int(&(x * y).to_string())
            );
        }
    }
    assert_eq!(
        big_int("123456789012345678901234567890") * big_int("-987654321098765432109876543210"),
        big_int("-121932631137021795226185032733622923332237463801111263526900")
    );
}

#[test]
fn accessors() {
    assert_eq!(big_int("-1764").signum(), -1);
    assert_eq!(big_int("0").signum(), 0);
    assert_eq!(big_int("1764").signum(), 1);
    assert_eq!(big_int("1764").last_digit(), 1);
    assert_eq!(big_int("-974").last_digit(), 9);
    assert_eq!(big_int("0").last_digit(), 0);
    assert_eq!(big_int("-974").abs(), big_int("974"));
    assert_eq!(big_int("974").abs(), big_int("974"));
    assert_eq!(big_int("974").len(), 3);
    assert_eq!(big_int("0").len(), 0);
    assert_eq!(big_int("-974").digits(), &vec![4, 7, 9]);
    assert_eq!(BigInteger::default(), BigInteger::zero());
    assert_eq!(big_int("12") << 3, big_int("12000"));
    assert_eq!(big_int("0") << 3, big_int("0"));
    assert_eq!(big_int("-12") << 0, big_int("-12"));
}

#[test]
fn split_on_keeps_both_parts_canonical() {
    let (low, high) = big_int("1001").split_on(2);
    assert_eq!(low, big_int("1"));
    assert_eq!(high, big_int("10"));
    let (low, high) = big_int("-1234").split_on(1);
    assert_eq!(low, big_int("-4"));
    assert_eq!(high, big_int("-123"));
    let (low, high) = big_int("12").split_on(5);
    assert_eq!(low, big_int("12"));
    assert_eq!(high, BigInteger::zero());
    let (low, high) = big_int("1000").split_on(2);
    assert_eq!(low, BigInteger::zero());
    assert_eq!(high, big_int("10"));
}

#[test]
fn from_parts_normalizes() {
    assert_eq!(BigInteger::from_parts(vec![2, 1, 0, 0], -1), big_int("-12"));
    assert_eq!(BigInteger::from_parts(vec![0, 0], 1), BigInteger::zero());
    assert_eq!(BigInteger::from_parts(vec![], -1), BigInteger::zero());
    assert_eq!(big_int("-12").into_parts(), (vec![2, 1], -1));
}

#[test]
fn multiply_on_magnitudes() {
    assert_eq!(minis::arith::multiply(&big_int("99"), &big_int("99")), big_int("9801"));
    assert_eq!(minis::arith::multiply(&big_int("999"), &big_int("999")), big_int("998001"));
    assert_eq!(minis::arith::multiply(&big_int("0"), &big_int("999")), big_int("0"));
    assert_eq!(minis::arith::multiply(&big_int("7"), &big_int("8")), big_int("56"));
    assert_eq!(minis::arith::multiply(&big_int("1000"), &big_int("1001")), big_int("1001000"));
}
