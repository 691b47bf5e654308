use aoe2_squire::version::{is_update_available, parse_version};

#[test]
fn test_parse_version() {
    assert_eq!(parse_version("0.1.2"), Some((0, 1, 2)));
    assert_eq!(parse_version("v0.1.2"), Some((0, 1, 2)));
    assert_eq!(parse_version("  v1.20.300  "), Some((1, 20, 300)));
    assert_eq!(parse_version("1.2"), None);
    assert_eq!(parse_version("1.2.3.4"), None);
    assert_eq!(parse_version("v1.a.3"), None);
}

#[test]
fn test_is_update_available() {
    // Higher version available
    assert!(is_update_available("0.1.2", "0.1.3"));
    assert!(is_update_available("0.1.2", "v0.1.3"));
    assert!(is_update_available("0.1.2", "v0.2.0"));
    assert!(is_update_available("0.1.2", "v1.0.0"));

    // Multi-digit components
    assert!(is_update_available("0.1.2", "v0.1.10"));
    assert!(is_update_available("0.1.9", "v0.1.10"));
    assert!(is_update_available("0.9.9", "v0.10.0"));
    assert!(is_update_available("0.9.9", "v1.0.0"));

    // No update (same version)
    assert!(!is_update_available("0.1.2", "0.1.2"));
    assert!(!is_update_available("0.1.2", "v0.1.2"));
    assert!(!is_update_available("v0.1.2", "0.1.2"));

    // No update (lower version)
    assert!(!is_update_available("0.1.2", "0.1.1"));
    assert!(!is_update_available("0.1.10", "0.1.2"));
    assert!(!is_update_available("1.0.0", "0.9.9"));

    // Invalid version inputs should not crash and should return false
    assert!(!is_update_available("invalid", "0.1.2"));
    assert!(!is_update_available("0.1.2", "invalid"));
}

#[test]
fn update_relation_is_a_strict_order_on_examples() {
    // irreflexive, asymmetric, transitive
    assert!(!is_update_available("2.0.0", "v2.0.0"));
    assert!(is_update_available("1.0.0", "1.0.1") && !is_update_available("1.0.1", "1.0.0"));
    assert!(is_update_available("1.0.0", "1.1.0") && is_update_available("1.1.0", "2.0.0"));
    assert!(is_update_available("1.0.0", "2.0.0"));
}

#[test]
fn version_components_must_fit() {
    assert_eq!(parse_version("4294967295.0.0"), Some((4294967295, 0, 0)));
    assert_eq!(parse_version("4294967296.0.0"), None);
    assert_eq!(parse_version("+1.2.3"), Some((1, 2, 3)));
    assert_eq!(parse_version("1..3"), None);
}

#[test]
fn rendered_versions_read_back() {
    for (a, b, c) in [(0u32, 0u32, 0u32), (1, 22, 333), (u32::MAX, 7, 0)] {
        assert_eq!(parse_version(&format!("{}.{}.{}", a, b, c)), Some((a, b, c)));
        assert_eq!(parse_version(&format!("  v{}.{}.{} ", a, b, c)), Some((a, b, c)));
    }
}
