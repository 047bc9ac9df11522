use statix::session::{
    get_nix_version, parse_number, parse_version, split, SessionInfo, Version,
};

#[test]
fn parse_trivial() {
    let v = "nix (Nix) 1.6.1".parse::<Version>().ok();
    assert!(v.is_some())
}

#[test]
fn parse() {
    let v = "nix (Nix) 2.4pre20211006_53e4794".parse::<Version>().ok();
    assert!(v.is_some())
}

#[test]
fn compare_trivial() {
    let v1 = "nix (Nix) 1.6.1".parse::<Version>().ok();
    let v2 = "nix (Nix) 1.7.2".parse::<Version>().ok();
    assert!(v2 > v1);
}

#[test]
fn compare() {
    let v1 = "nix (Nix) 1.7".parse::<Version>().ok();
    let v2 = "nix (Nix) 2.4pre20211006_53e4794".parse::<Version>().ok();
    assert!(v2 >= v1);
}

#[test]
fn number_reads_leading_digits() {
    assert_eq!(parse_number("4pre20211006_53e4794"), Some(4));
    assert_eq!(parse_number("007"), Some(7));
    assert_eq!(parse_number("65535"), Some(65535));
    assert_eq!(parse_number("65536"), None);
    assert_eq!(parse_number("99999999999999999999"), None);
    assert_eq!(parse_number(""), None);
    assert_eq!(parse_number("pre"), None);
}

#[test]
fn version_needs_three_words_and_two_numbers() {
    assert!(parse_version("nix (Nix) 2.4").is_some());
    assert!(parse_version("nix 2.4").is_none());
    assert!(parse_version("nix (Nix) 2.4 extra").is_none());
    assert!(parse_version("nix (Nix)  2.4").is_none());
    assert!(parse_version("nix (Nix) 2").is_none());
    assert!(parse_version("nix (Nix) x.4").is_none());
    assert!(parse_version("nix (Nix) 2.x").is_none());
    assert!(parse_version("nix (Nix) 2.4.x").is_some());
}

#[test]
fn versions_are_ordered_by_score() {
    let a = parse_version("nix (Nix) 1.6.1").unwrap();
    let b = parse_version("nix (Nix) 1.7.2").unwrap();
    assert_eq!(a.score(), 161);
    assert_eq!(b.score(), 172);
    assert_eq!(a.cmp(&b), std::cmp::Ordering::Less);
    assert_eq!(b.cmp(&a), std::cmp::Ordering::Greater);
    assert_eq!(a.cmp(&a), std::cmp::Ordering::Equal);
    let c = parse_version("nix (Nix) 2.4pre20211006_53e4794").unwrap();
    assert_eq!(c.score(), 240);
    let big = parse_version("nix (Nix) 65535.65535.65535").unwrap();
    assert_eq!(big.score(), 65535 * 111);
}

#[test]
fn session_holds_its_version() {
    let v = get_nix_version().unwrap();
    assert_eq!(v.score(), 240);
    let session = SessionInfo::from_version(v);
    assert_eq!(*session.version(), v);
}

#[test]
fn split_cuts_at_every_separator() {
    assert_eq!(split("nix (Nix) 2.4", ' '), vec!["nix", "(Nix)", "2.4"]);
    assert_eq!(split("2.4pre", '.'), vec!["2", "4pre"]);
    assert_eq!(split("", '.'), vec![""]);
    assert_eq!(split(".", '.'), vec!["", ""]);
    assert_eq!(split("a..b.", '.'), vec!["a", "", "b", ""]);
    assert_eq!(split("é.ü", '.'), vec!["é", "ü"]);
}

#[test]
fn a_line_that_is_no_version_is_refused() {
    assert_eq!("nix 2.4".parse::<Version>(), Err(()));
    assert_eq!("".parse::<Version>(), Err(()));
    assert_eq!("nix (Nix) 65536.1".parse::<Version>(), Err(()));
    let v = "nix (Nix) 1.7".parse::<Version>().unwrap();
    let w = "nix (Nix) 1.7.0".parse::<Version>().unwrap();
    assert_eq!(v.partial_cmp(&w), Some(std::cmp::Ordering::Equal));
    assert!(v <= w && v >= w);
    assert!(v != w);
}
