use upgrade_paths::policy::UpgradePathPolicy;
use upgrade_paths::store::UpdateBuilder;
use upgrade_paths::upgrade::Upgrade;
use upgrade_paths::version::Version;

fn v(major: u64, minor: u64, patch: u64) -> Version {
    Version::new(major, minor, patch)
}

fn builder_of(records: &[(Version, &[u8])]) -> UpdateBuilder {
    let mut b = UpdateBuilder::new();
    for (version, text) in records {
        b.add_item(*version, &text.to_vec());
    }
    b
}

fn check(u: &Upgrade, from: Version, to: Version, script: &[u8]) {
    assert_eq!(u.from, from);
    assert_eq!(u.to, to);
    assert_eq!(u.script, script.to_vec());
}

#[test]
fn example_latest_sweep() {
    let b = builder_of(&[(v(1, 0, 0), b"A"), (v(1, 1, 0), b"B"), (v(2, 0, 0), b"C")]);
    let ups = b.generate_latest_scripts();
    assert_eq!(ups.len(), 2);
    check(&ups[0], v(1, 0, 0), v(2, 0, 0), b"BC");
    check(&ups[1], v(1, 1, 0), v(2, 0, 0), b"C");
}

#[test]
fn example_non_latest_sweep() {
    let b = builder_of(&[(v(1, 0, 0), b"A"), (v(1, 1, 0), b"B"), (v(2, 0, 0), b"C")]);
    let ups = b.generate_non_latest_scripts();
    assert_eq!(ups.len(), 1);
    check(&ups[0], v(1, 0, 0), v(1, 1, 0), b"B");
}

#[test]
fn example_pyramid() {
    let b = builder_of(&[(v(1, 0, 0), b"A"), (v(1, 1, 0), b"B"), (v(2, 0, 0), b"C")]);
    let ups = b.generate_pyramid_scripts();
    assert_eq!(ups.len(), 3);
    check(&ups[0], v(1, 0, 0), v(1, 1, 0), b"B");
    check(&ups[1], v(1, 1, 0), v(2, 0, 0), b"C");
    check(&ups[2], v(1, 0, 0), v(2, 0, 0), b"BC");
}

#[test]
fn policy_selector_slicer_concatenates_both_sweeps() {
    let b = builder_of(&[(v(1, 0, 0), b"A"), (v(1, 1, 0), b"B"), (v(2, 0, 0), b"C")]);
    let ups = b.generate_upgrade_paths(UpgradePathPolicy::LatestAndRangeSlicer);
    assert_eq!(ups.len(), 3);
    check(&ups[0], v(1, 0, 0), v(2, 0, 0), b"BC");
    check(&ups[1], v(1, 1, 0), v(2, 0, 0), b"C");
    check(&ups[2], v(1, 0, 0), v(1, 1, 0), b"B");
}

#[test]
fn policy_selector_pyramid_matches_pyramid() {
    let b = builder_of(&[(v(1, 0, 0), b"A"), (v(1, 1, 0), b"B"), (v(2, 0, 0), b"C")]);
    let ups = b.generate_upgrade_paths(UpgradePathPolicy::ExhaustivePyramid);
    assert_eq!(ups.len(), 3);
    check(&ups[2], v(1, 0, 0), v(2, 0, 0), b"BC");
}

#[test]
fn empty_store_emits_nothing() {
    let b = UpdateBuilder::new();
    assert_eq!(b.generate_latest_scripts().len(), 0);
    assert_eq!(b.generate_non_latest_scripts().len(), 0);
    assert_eq!(b.generate_pyramid_scripts().len(), 0);
    assert_eq!(b.generate_upgrade_paths(UpgradePathPolicy::ExhaustivePyramid).len(), 0);
    assert_eq!(b.generate_upgrade_paths(UpgradePathPolicy::LatestAndRangeSlicer).len(), 0);
}

#[test]
fn single_version_emits_nothing() {
    let b = builder_of(&[(v(1, 0, 0), b"init")]);
    assert_eq!(b.generate_latest_scripts().len(), 0);
    assert_eq!(b.generate_non_latest_scripts().len(), 0);
    assert_eq!(b.generate_pyramid_scripts().len(), 0);
}

#[test]
fn two_versions_base_upgrade_only() {
    let b = builder_of(&[(v(1, 0, 0), b"a"), (v(2, 0, 0), b"b")]);
    let pyramid = b.generate_pyramid_scripts();
    assert_eq!(pyramid.len(), 1);
    check(&pyramid[0], v(1, 0, 0), v(2, 0, 0), b"b");
    let latest = b.generate_latest_scripts();
    assert_eq!(latest.len(), 1);
    check(&latest[0], v(1, 0, 0), v(2, 0, 0), b"b");
    assert_eq!(b.generate_non_latest_scripts().len(), 0);
}

#[test]
fn repeated_contributions_append_in_call_order() {
    let mut b = UpdateBuilder::new();
    b.add_item(v(1, 0, 0), &b"a".to_vec());
    b.add_item(v(2, 0, 0), &b"AB".to_vec());
    b.add_item(v(2, 0, 0), &b"C".to_vec());
    let ups = b.generate_latest_scripts();
    assert_eq!(ups.len(), 1);
    check(&ups[0], v(1, 0, 0), v(2, 0, 0), b"ABC");
}

#[test]
fn contribution_with_no_text_keeps_empty_fragment() {
    let b = builder_of(&[(v(1, 0, 0), b"a"), (v(1, 5, 0), b""), (v(2, 0, 0), b"c")]);
    let ups = b.generate_latest_scripts();
    assert_eq!(ups.len(), 2);
    check(&ups[0], v(1, 0, 0), v(2, 0, 0), b"c");
    check(&ups[1], v(1, 5, 0), v(2, 0, 0), b"c");
}

#[test]
fn out_of_order_ingestion_is_sorted_by_version() {
    let b = builder_of(&[(v(2, 0, 0), b"C"), (v(1, 0, 0), b"A"), (v(1, 1, 0), b"B")]);
    let ups = b.generate_latest_scripts();
    assert_eq!(ups.len(), 2);
    check(&ups[0], v(1, 0, 0), v(2, 0, 0), b"BC");
    check(&ups[1], v(1, 1, 0), v(2, 0, 0), b"C");
}

#[test]
fn pyramid_cardinality_five_versions() {
    let b = builder_of(&[
        (v(1, 0, 0), b"a"),
        (v(1, 1, 0), b"b"),
        (v(1, 2, 0), b"c"),
        (v(1, 3, 0), b"d"),
        (v(2, 0, 0), b"e"),
    ]);
    let ups = b.generate_pyramid_scripts();
    // 4 base upgrades, then rounds of 2 and 1: 4 + 2 + 1.
    assert_eq!(ups.len(), 7);
    check(&ups[0], v(1, 0, 0), v(1, 1, 0), b"b");
    check(&ups[1], v(1, 1, 0), v(1, 2, 0), b"c");
    check(&ups[2], v(1, 2, 0), v(1, 3, 0), b"d");
    check(&ups[3], v(1, 3, 0), v(2, 0, 0), b"e");
    check(&ups[4], v(1, 0, 0), v(1, 2, 0), b"bc");
    check(&ups[5], v(1, 2, 0), v(2, 0, 0), b"de");
    check(&ups[6], v(1, 0, 0), v(2, 0, 0), b"bcde");
}

#[test]
fn pyramid_drops_unpaired_trailing_upgrade() {
    let b = builder_of(&[
        (v(1, 0, 0), b"a"),
        (v(1, 1, 0), b"b"),
        (v(1, 2, 0), b"c"),
        (v(2, 0, 0), b"d"),
    ]);
    let ups = b.generate_pyramid_scripts();
    // 3 base upgrades; the first round pairs only the first two, and its
    // single survivor ends the pyramid.
    assert_eq!(ups.len(), 4);
    check(&ups[0], v(1, 0, 0), v(1, 1, 0), b"b");
    check(&ups[1], v(1, 1, 0), v(1, 2, 0), b"c");
    check(&ups[2], v(1, 2, 0), v(2, 0, 0), b"d");
    check(&ups[3], v(1, 0, 0), v(1, 2, 0), b"bc");
}

#[test]
fn non_latest_sweep_orders_horizons_downward() {
    let b = builder_of(&[
        (v(1, 0, 0), b"a"),
        (v(1, 1, 0), b"b"),
        (v(1, 2, 0), b"c"),
        (v(2, 0, 0), b"d"),
    ]);
    let ups = b.generate_non_latest_scripts();
    assert_eq!(ups.len(), 3);
    check(&ups[0], v(1, 0, 0), v(1, 2, 0), b"bc");
    check(&ups[1], v(1, 1, 0), v(1, 2, 0), b"c");
    check(&ups[2], v(1, 0, 0), v(1, 1, 0), b"b");
}

#[test]
fn latest_sweep_always_ends_at_the_maximum() {
    let b = builder_of(&[
        (v(1, 0, 0), b"a"),
        (v(1, 1, 0), b"b"),
        (v(1, 2, 0), b"c"),
        (v(3, 0, 0), b"d"),
    ]);
    let ups = b.generate_latest_scripts();
    assert_eq!(ups.len(), 3);
    for u in &ups {
        assert_eq!(u.to, v(3, 0, 0));
        assert!(u.from.precedes(&u.to));
    }
    assert_eq!(ups[0].from, v(1, 0, 0));
    assert_eq!(ups[1].from, v(1, 1, 0));
    assert_eq!(ups[2].from, v(1, 2, 0));
}

#[test]
fn base_layer_composition_matches_first_to_last_script() {
    let b = builder_of(&[
        (v(1, 0, 0), b"a"),
        (v(1, 1, 0), b"bb"),
        (v(1, 2, 0), b"ccc"),
        (v(2, 0, 0), b"d"),
    ]);
    let pyramid = b.generate_pyramid_scripts();
    let mut composed: Vec<u8> = Vec::new();
    for u in pyramid.iter().take(3) {
        composed.extend_from_slice(&u.script);
    }
    let latest = b.generate_latest_scripts();
    assert_eq!(composed, latest[0].script);
    assert_eq!(composed, b"bbcccd".to_vec());
}

#[test]
fn entries_are_readable_in_canonical_order() {
    let mut b = UpdateBuilder::new();
    b.add_item(v(2, 0, 0), &b"x".to_vec());
    b.add_item(v(1, 0, 0), &b"a".to_vec());
    b.add_item(v(2, 0, 0), &b"y".to_vec());
    assert_eq!(b.len(), 2);
    assert_eq!(b.version_at(0), v(1, 0, 0));
    assert_eq!(b.version_at(1), v(2, 0, 0));
    assert_eq!(b.fragment_at(0), b"a".to_vec());
    assert_eq!(b.fragment_at(1), b"xy".to_vec());
}

#[test]
fn version_precedence_is_numeric_per_field() {
    assert!(v(1, 2, 3).precedes(&v(1, 10, 0)));
    assert!(v(1, 99, 99).precedes(&v(2, 0, 0)));
    assert!(v(1, 2, 3).precedes(&v(1, 2, 4)));
    assert!(!v(2, 0, 0).precedes(&v(1, 99, 99)));
    assert!(!v(1, 2, 3).precedes(&v(1, 2, 3)));
    assert_eq!(v(1, 2, 3), v(1, 2, 3));
}
