//! Feature levels.
use s3stream::version::Version;

#[test]
fn feature_levels_match_java() {
    assert_eq!(Version::from_feature_level(1), Some(Version::V0));
    assert_eq!(Version::from_feature_level(2), Some(Version::V1));
    assert_eq!(Version::from_feature_level(3), None);
    assert!(!Version::V0.stream_object_compact_v1_supported());
    assert!(Version::V1.wal_registration_supported());
    assert_eq!(Version::LATEST, Version::V1);
}

#[test]
fn feature_levels_round_trip() {
    for version in [Version::V0, Version::V1] {
        assert_eq!(
            Version::from_feature_level(version.feature_level()),
            Some(version)
        );
    }
    assert_eq!(Version::from_feature_level(0), None);
    assert_eq!(Version::from_feature_level(-1), None);
}

#[test]
fn versions_are_ordered_as_levels() {
    assert!(Version::V0 < Version::V1);
    assert!(Version::V1 >= Version::V1);
    assert_eq!(Version::V1.max(Version::V0), Version::V1);
}
