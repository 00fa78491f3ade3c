use base64_codec::semantic_version::{SemVer, SemVerErr};

#[test]
fn new() {
    assert_eq!(
        SemVer::new(1, 0, 0),
        SemVer {
            major: 1,
            minor: 0,
            patch: 0
        }
    );
}

#[test]
fn from_string() {
    assert_eq!(SemVer::parse("2.1.2").unwrap(), SemVer::new(2, 1, 2));
}

#[test]
fn compatible() {
    assert!(SemVer::parse("2.1.2")
        .unwrap()
        .is_compatible_with(&SemVer::new(2, 8, 145)));
    assert_eq!(
        SemVer::parse("0.1.5")
            .unwrap()
            .is_compatible_with(&SemVer::parse("0.3.0").unwrap()),
        false
    );
}

#[test]
fn compare() {
    assert!(SemVer::new(0, 1, 2) > SemVer::new(0, 0, 1));
    assert!(SemVer::new(0, 1, 2) == SemVer::new(0, 1, 2));
    assert!(SemVer::new(0, 0, 2) > SemVer::new(0, 0, 1));
    assert!(SemVer::new(0, 1, 2) > SemVer::new(0, 0, 1));
    assert!(SemVer::new(1, 1, 2) > SemVer::new(0, 0, 1));
    assert!(SemVer::new(2, 0, 2) > SemVer::new(0, 1, 1));
}

#[test]
fn to_string() {
    assert!(&SemVer::new(7, 14, 59).to_string() == "7.14.59");
}

#[test]
fn sort() {
    let mut arr = [
        SemVer::new(0, 10, 0),
        SemVer::new(0, 1, 0),
        SemVer::new(1, 0, 0),
    ];
    arr.sort();
    assert!(
        arr == [
            SemVer::new(0, 1, 0),
            SemVer::new(0, 10, 0),
            SemVer::new(1, 0, 0)
        ]
    )
}

#[test]
fn parse_rejects_malformed_text() {
    assert_eq!(SemVer::parse("145"), Err(SemVerErr::InvalidVersion));
    assert_eq!(SemVer::parse("1.2"), Err(SemVerErr::InvalidVersion));
    assert_eq!(SemVer::parse(""), Err(SemVerErr::InvalidVersion));
    assert_eq!(SemVer::parse("a.b.c"), Err(SemVerErr::InvalidVersion));
    assert_eq!(SemVer::parse("1..2"), Err(SemVerErr::InvalidVersion));
    assert_eq!(SemVer::parse("1.2."), Err(SemVerErr::InvalidVersion));
    assert_eq!(SemVer::parse("1.2.3extra"), Err(SemVerErr::InvalidVersion));
    assert_eq!(SemVer::parse(" 1.2.3"), Err(SemVerErr::InvalidVersion));
    assert_eq!(SemVer::parse("-1.2.3"), Err(SemVerErr::InvalidVersion));
}

#[test]
fn parse_rejects_overflow() {
    assert_eq!(SemVer::parse("4294967296.0.0"), Err(SemVerErr::InvalidVersion));
    assert_eq!(
        SemVer::parse("4294967295.0.0").unwrap(),
        SemVer::new(4294967295, 0, 0)
    );
}

#[test]
fn parse_as_str_parse_would() {
    // `str::parse::<u32>` accepts a leading plus sign and leading zeros, and
    // `split('.')` leaves components after the third unread.
    assert_eq!(SemVer::parse("+1.2.3").unwrap(), SemVer::new(1, 2, 3));
    assert_eq!(SemVer::parse("007.04.0").unwrap(), SemVer::new(7, 4, 0));
    assert_eq!(SemVer::parse("1.2.3.anything").unwrap(), SemVer::new(1, 2, 3));
}

#[test]
fn default_is_initial_development() {
    assert_eq!(SemVer::default(), SemVer::new(0, 1, 0));
}

#[test]
fn stability() {
    assert!(!SemVer::new(0, 9, 9).is_stable());
    assert!(SemVer::new(1, 0, 0).is_stable());
}

#[test]
fn print_zero_version() {
    assert!(&SemVer::new(0, 0, 0).to_string() == "0.0.0");
}
