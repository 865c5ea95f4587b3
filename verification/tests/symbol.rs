use ruddy::symbol::{Bundle, Symbol};
use semver::Version;
use twox_hash::XxHash3_64;

#[test]
fn bundle_names_are_checked() {
    assert!(Bundle::new("demo", Version::new(1, 2, 3)).is_some());
    assert!(Bundle::new("demo-lib_2", Version::new(0, 1, 0)).is_some());
    assert!(Bundle::new("", Version::new(1, 0, 0)).is_none());
    assert!(Bundle::new("2demo", Version::new(1, 0, 0)).is_none());
    assert!(Bundle::new("de mo", Version::new(1, 0, 0)).is_none());
}

#[test]
fn bundle_hash_fingerprints_its_identity() {
    let bundle = Bundle::new("demo", Version::new(1, 2, 3)).expect("valid");
    assert_eq!(bundle.name(), "demo");
    assert_eq!(bundle.version(), &Version::new(1, 2, 3));
    assert_eq!(bundle.hash().bits(), XxHash3_64::oneshot("demo@1.2.3".as_bytes()));
    let other = Bundle::new("demo", Version::new(1, 2, 4)).expect("valid");
    assert_ne!(bundle.hash(), other.hash());
}

#[test]
fn symbols_fingerprint_their_path() {
    let bundle = Bundle::new("demo", Version::new(1, 0, 0)).expect("valid");
    let symbol = Symbol::at_path(bundle.hash(), "Vmain");
    assert_eq!(symbol.bundle(), bundle.hash());
    assert_eq!(symbol.bits(), XxHash3_64::oneshot(b"Vmain"));
    assert_ne!(symbol, Symbol::generated());
    assert_eq!(Symbol::generated().bits(), u64::MAX);
}

#[test]
fn bundles_with_build_metadata_are_refused() {
    let mut version = Version::new(1, 0, 0);
    version.build = semver::BuildMetadata::new("abc").expect("valid build metadata");
    assert!(Bundle::new("demo", version).is_none());
}
