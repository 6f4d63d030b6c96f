use minis::sign::Sign;

#[test]
fn sign_digit() {
    assert_eq!(Sign::Positive.digit(), 0);
    assert_eq!(Sign::Negative.digit(), -1);
}

#[test]
fn sign_product() {
    assert_eq!(Sign::Positive * Sign::Positive, Sign::Positive);
    assert_eq!(Sign::Negative * Sign::Negative, Sign::Positive);
    assert_eq!(Sign::Positive * Sign::Negative, Sign::Negative);
    assert_eq!(Sign::Negative * Sign::Positive, Sign::Negative);
}
