use go_plugin::version::{from_go_version, to_go_version};

#[test]
fn parses_from() {
    assert_eq!(from_go_version("1"), "1.0.0");
    assert_eq!(from_go_version("1.2"), "1.2.0");
    assert_eq!(from_go_version("1.2.3"), "1.2.3");

    assert_eq!(from_go_version("1alpha1"), "1.0.0-alpha1");
    assert_eq!(from_go_version("1.2beta2"), "1.2.0-beta2");
    assert_eq!(from_go_version("1.2.3rc3"), "1.2.3-rc3");

    // Shouldn't change
    assert_eq!(from_go_version("1.0.0"), "1.0.0");
    assert_eq!(from_go_version("1.0.0-alpha1"), "1.0.0-alpha1");
}

#[test]
fn formats_to() {
    assert_eq!(to_go_version("1.0.0"), "1");
    assert_eq!(to_go_version("1.2.0"), "1.2");
    assert_eq!(to_go_version("1.2.3"), "1.2.3");

    assert_eq!(to_go_version("1.0.0-alpha1"), "1alpha1");
    assert_eq!(to_go_version("1.2.0-beta2"), "1.2beta2");
    assert_eq!(to_go_version("1.2.3-rc3"), "1.2.3rc3");
}

#[test]
fn normalizes_again_without_change() {
    for t in ["1", "1.2", "1.2.3", "1alpha1", "1.2beta2", "1.2.3rc3", "1.19.1beta1"] {
        let once = from_go_version(t);
        let twice = from_go_version(&once);
        assert_eq!(twice, once);
    }
}

#[test]
fn round_trips_canonical_tokens() {
    for t in ["1", "1.2", "1.2.3", "1alpha1", "1.2beta2", "1.2.3rc3"] {
        assert_eq!(to_go_version(&from_go_version(t)), t);
    }
}

#[test]
fn always_yields_three_components() {
    for (t, expected) in [("7", "7.0.0"), ("1.19", "1.19.0"), ("1.19.11", "1.19.11")] {
        let sem = from_go_version(t);
        assert_eq!(sem, expected);
        assert_eq!(sem.split('.').count(), 3);
    }
}
