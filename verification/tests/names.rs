use mqpkg::{PackageName, PackageNameError};

#[test]
fn parse_accepts_and_normalizes() {
    let n = PackageName::parse("Foo3Bar").unwrap();
    assert_eq!(n.as_str(), "foo3bar");
}

#[test]
fn parse_lowercase_matches_original() {
    // case-insensitive normalization: parsing the lowercased input gives
    // the same name as parsing the original
    let a = PackageName::parse("MixedCase7").unwrap();
    let b = PackageName::parse("mixedcase7").unwrap();
    assert!(a.same_name(&b));
    assert_eq!(a.as_str(), b.as_str());
}

#[test]
fn parse_idempotent_on_own_output() {
    let a = PackageName::parse("SomeTool").unwrap();
    let b = PackageName::parse(a.as_str()).unwrap();
    assert!(a.same_name(&b));
    assert_eq!(b.as_str(), a.as_str());
}

#[test]
fn empty_input_is_too_short() {
    assert_eq!(PackageName::parse(""), Err(PackageNameError::TooShort));
}

#[test]
fn nonalpha_start_reports_exact_character() {
    match PackageName::parse("1abc") {
        Err(PackageNameError::NoStartingAlpha { name, character }) => {
            assert_eq!(name, "1abc");
            assert_eq!(character, '1');
        }
        other => panic!("expected NoStartingAlpha, got {:?}", other),
    }
    match PackageName::parse("_tool") {
        Err(PackageNameError::NoStartingAlpha { character, .. }) => {
            assert_eq!(character, '_');
        }
        other => panic!("expected NoStartingAlpha, got {:?}", other),
    }
}

#[test]
fn invalid_character_reports_first_offender() {
    match PackageName::parse("ab-cd") {
        Err(PackageNameError::InvalidCharacter { name, character }) => {
            assert_eq!(name, "ab-cd");
            assert_eq!(character, '-');
        }
        other => panic!("expected InvalidCharacter, got {:?}", other),
    }
}

#[test]
fn same_name_distinguishes() {
    let a = PackageName::parse("left").unwrap();
    let b = PackageName::parse("right").unwrap();
    assert!(!a.same_name(&b));
    assert!(a.same_name(&a.duplicate()));
}
