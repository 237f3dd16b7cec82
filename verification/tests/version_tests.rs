use pathclosure::version::Version;
use std::cmp::Ordering;

#[test]
fn parses_major_minor() {
    let v = Version::from_str("2.31").unwrap();
    assert_eq!(v.major(), 2);
    assert_eq!(v.minor(), Some(31));
    assert_eq!(v.revision(), None);
}

#[test]
fn parses_major_only() {
    let v = Version::from_str("7").unwrap();
    assert_eq!(v.major(), 7);
    assert_eq!(v.minor(), None);
    assert_eq!(v.revision(), None);
}

#[test]
fn parses_major_minor_patch() {
    let v = Version::from_str("2.31.1").unwrap();
    assert_eq!(v.major(), 2);
    assert_eq!(v.minor(), Some(31));
    assert_eq!(v.revision(), Some(1));
}

#[test]
fn bad_minor_is_dropped_but_patch_kept() {
    let v = Version::from_str("2.x.3").unwrap();
    assert_eq!(v.major(), 2);
    assert_eq!(v.minor(), None);
    assert_eq!(v.revision(), Some(3));
}

#[test]
fn missing_major_fails() {
    assert!(Version::from_str("").is_err());
    assert!(Version::from_str("x.1").is_err());
    assert!(Version::from_str(".5").is_err());
}

#[test]
fn ordering_2_31_less_than_2_31_1() {
    let a = Version::from_str("2.31").unwrap();
    let b = Version::from_str("2.31.1").unwrap();
    assert_eq!(a.cmp(&b), Ordering::Less);
    assert_eq!(b.cmp(&a), Ordering::Greater);
}

#[test]
fn ordering_equal_but_not_eq() {
    let a = Version::from_str("2.31").unwrap();
    let b = Version::from_str("2.31.0").unwrap();
    assert_eq!(a.cmp(&b), Ordering::Equal);
    assert!(a != b);
}

#[test]
fn two_equals_two_dot_zero_in_ordering_only() {
    let a = Version::from_str("2").unwrap();
    let b = Version::from_str("2.0").unwrap();
    assert_eq!(a.cmp(&b), Ordering::Equal);
    assert!(a != b);
    let c = Version::from_str("2").unwrap();
    assert!(a == c);
}

#[test]
fn plus_sign_accepted() {
    let v = Version::from_str("+3.4").unwrap();
    assert_eq!(v.major(), 3);
    assert_eq!(v.minor(), Some(4));
}

#[test]
fn overflowing_major_fails() {
    assert!(Version::from_str("99999999999999999999999").is_err());
}
