use datapack_gen::ident::{grist_resource, validate_resource_location};
use datapack_gen::recipe::CombinationMode;

#[test]
fn accepts_well_formed_identifiers() {
    assert!(validate_resource_location("minestuck:sample"));
    assert!(validate_resource_location("minestuck:nested/path"));
    assert!(validate_resource_location("a_b-c.d:e/f_g-h.i"));
    assert!(validate_resource_location("0:1"));
}

#[test]
fn rejects_missing_colon() {
    assert!(!validate_resource_location("bad_item_no_colon"));
    assert!(!validate_resource_location(""));
    assert!(!validate_resource_location("plainword"));
}

#[test]
fn rejects_empty_parts() {
    assert!(!validate_resource_location(":path"));
    assert!(!validate_resource_location("ns:"));
    assert!(!validate_resource_location(":"));
}

#[test]
fn rejects_bad_characters() {
    assert!(!validate_resource_location("Mine:stuck"));
    assert!(!validate_resource_location("mine stuck:a"));
    assert!(!validate_resource_location("mine/stuck:a"));
    assert!(!validate_resource_location("ns:pa th"));
    assert!(!validate_resource_location("a:b:c"));
}

#[test]
fn qualifies_bare_names() {
    assert_eq!(grist_resource("cruxite"), "minestuck:cruxite");
    assert_eq!(grist_resource("other:thing"), "other:thing");
    assert_eq!(grist_resource(""), "minestuck:");
}

#[test]
fn qualification_is_idempotent() {
    let once = grist_resource("build");
    let twice = grist_resource(&once);
    assert_eq!(once, twice);
    let once2 = grist_resource("already:qualified");
    assert_eq!(grist_resource(&once2), once2);
}

#[test]
fn parses_combination_modes() {
    assert_eq!(CombinationMode::parse("and"), Some(CombinationMode::And));
    assert_eq!(CombinationMode::parse("&&"), Some(CombinationMode::And));
    assert_eq!(CombinationMode::parse("or"), Some(CombinationMode::Or));
    assert_eq!(CombinationMode::parse("||"), Some(CombinationMode::Or));
    assert_eq!(CombinationMode::parse("AND"), Some(CombinationMode::And));
    assert_eq!(CombinationMode::parse("Or"), Some(CombinationMode::Or));
    assert_eq!(CombinationMode::parse("aNd"), Some(CombinationMode::And));
    assert_eq!(CombinationMode::parse("xor"), None);
    assert_eq!(CombinationMode::parse(""), None);
    assert_eq!(CombinationMode::parse("and "), None);
}

#[test]
fn mode_serializes_lowercase() {
    assert_eq!(CombinationMode::And.as_str(), "and");
    assert_eq!(CombinationMode::Or.as_str(), "or");
}
