use changelog::changeset::{ChangeSet, ChangesetHeader};
use changelog::sync::sync_one_from;
use changelog::{ChangeItem, ChangeLog, ChangeType, ChgError, Date, ReleaseHeader};

#[test]
fn empty() {
    ChangeLog::import_markdown(" ").unwrap();
}

#[test]
fn garbage() {
    ChangeLog::import_markdown("#ABCD").unwrap();
}

#[test]
fn invalid_version_id() {
    let result = ChangeLog::import_markdown("# Changelog\n## blahblah whatever nonsense\n");
    match result {
        Err(ChgError::InvalidVersionID(v, rh)) => {
            assert_eq!(v, "blahblah");
            assert_eq!(rh, "blahblah whatever nonsense");
        }
        Err(e) => panic!("Different error expected - got {:?}", e),
        Ok(_) => panic!("Error expected"),
    }
}

#[test]
fn invalid_timestamp() {
    let result = ChangeLog::import_markdown("# Changelog\n## 1.2.3-alpha-1 whatever nonsense\n");
    match result {
        Err(ChgError::InvalidTimestamp(ts, rh)) => {
            assert_eq!(ts, "whatever");
            assert_eq!(rh, "1.2.3-alpha-1 whatever nonsense");
        }
        Err(e) => panic!("Different error expected - got {:?}", e),
        Ok(_) => panic!("Error expected"),
    }
}

#[test]
fn header_garbage() {
    let changelog = ChangeLog::import_markdown("# Changelog\n## 1.2.3-alpha-1 1972-05-31 noise\n").unwrap();
    assert!(
        changelog.changesets.iter().all(|c| c.header.is_release()),
        "No unreleased sections expected"
    );
    assert_eq!(1, changelog.changesets.len());
    assert_eq!("\n# Changelog", changelog.prolog, "prolog");
}

fn someday() -> Date {
    Date::new(2021, 11, 2).unwrap()
}

fn tst_item(text: &str) -> ChangeItem {
    ChangeItem {
        refs: vec![],
        change_type: ChangeType::Other,
        component: "".to_string(),
        text: text.to_string(),
        authors: vec![],
    }
}

fn ref_item(r: &str, text: &str) -> ChangeItem {
    ChangeItem { refs: vec![r.to_string()], ..tst_item(text) }
}

fn rlsh(version: &str) -> ChangesetHeader {
    ChangesetHeader::Release(ReleaseHeader {
        version: version.to_string(),
        tag: "".to_string(),
        timestamp: someday(),
        yanked: false,
    })
}

fn c1() -> Vec<ChangeSet> {
    vec![
        ChangeSet { header: ChangesetHeader::Unreleased, items: vec![tst_item("u1, unreleased")] },
        ChangeSet { header: rlsh("1.0.7"), items: vec![tst_item("r107, main change")] },
        ChangeSet { header: rlsh("1.0.6"), items: vec![tst_item("r106, sixth change")] },
        ChangeSet { header: rlsh("1.0.5"), items: vec![tst_item("r105, fifth change")] },
        ChangeSet { header: rlsh("1.0.4"), items: vec![tst_item("r104, fourth change")] },
        ChangeSet { header: rlsh("1.0.3"), items: vec![tst_item("r103, third change")] },
        ChangeSet { header: rlsh("1.0.2"), items: vec![tst_item("r102, second change")] },
        ChangeSet { header: rlsh("1.0.1"), items: vec![tst_item("r101, first change")] },
        ChangeSet { header: rlsh("1.0.0"), items: vec![tst_item("r100, initial change")] },
    ]
}

#[test]
fn test_sync_steps() {
    let c1 = c1();
    let mut changelog = Vec::new();
    assert_eq!(changelog.len(), 0, "new changelog must be empty");
    for expected in 1..=9 {
        assert!(sync_one_from(&mut changelog, &c1).unwrap());
        assert_eq!(changelog.len(), expected, "new changelog size mismatch");
    }
    assert!(!sync_one_from(&mut changelog, &c1).unwrap());
    assert_eq!(changelog.len(), 9, "new changelog size mismatch");
    assert_eq!(changelog[0].items.len(), 1);
}

#[test]
fn unreleased_merge_takes_only_new_references() {
    let incoming = vec![
        ChangeSet {
            header: ChangesetHeader::Unreleased,
            items: vec![ref_item("#5", "five"), tst_item("bare"), ref_item("#4", "four")],
        },
        ChangeSet { header: rlsh("1.0"), items: vec![] },
    ];
    let mut existing = vec![
        ChangeSet { header: ChangesetHeader::Unreleased, items: vec![ref_item("#4", "known")] },
        ChangeSet { header: rlsh("1.0"), items: vec![] },
    ];
    assert!(sync_one_from(&mut existing, &incoming).unwrap());
    let texts: Vec<&str> = existing[0].items.iter().map(|i| i.text.as_str()).collect();
    assert_eq!(texts, vec!["five", "known"]);
    assert!(!sync_one_from(&mut existing, &incoming).unwrap());
    assert_eq!(existing[0].items.len(), 2);
}

fn version(cs: &ChangeSet) -> String {
    match &cs.header {
        ChangesetHeader::Unreleased => "U".to_string(),
        ChangesetHeader::Release(rh) => rh.version.clone(),
    }
}

#[test]
fn sync_adds_releases_oldest_first_then_converges() {
    let incoming = vec![
        ChangeSet { header: ChangesetHeader::Unreleased, items: vec![ref_item("#9", "next")] },
        ChangeSet { header: rlsh("2.0"), items: vec![ref_item("#2", "two")] },
        ChangeSet { header: rlsh("1.0"), items: vec![ref_item("#1", "one")] },
    ];
    let mut existing = vec![ChangeSet { header: rlsh("1.0"), items: vec![] }];
    assert!(sync_one_from(&mut existing, &incoming).unwrap());
    assert_eq!(existing.iter().map(version).collect::<Vec<_>>(), vec!["2.0", "1.0"]);
    assert!(sync_one_from(&mut existing, &incoming).unwrap());
    assert_eq!(existing.iter().map(version).collect::<Vec<_>>(), vec!["U", "2.0", "1.0"]);
    assert!(!sync_one_from(&mut existing, &incoming).unwrap());
    assert_eq!(existing.len(), 3);
    assert!(existing.len() <= 1 + incoming.len());
}

#[test]
fn sync_divergence_fails_without_change() {
    let incoming = vec![ChangeSet { header: rlsh("1.0"), items: vec![] }];
    let mut existing = vec![
        ChangeSet { header: rlsh("1.1"), items: vec![] },
        ChangeSet { header: rlsh("1.0"), items: vec![] },
    ];
    match sync_one_from(&mut existing, &incoming) {
        Err(ChgError::Other(m)) => assert_eq!(m, "Existing changelog diverges in 1 releases"),
        other => panic!("unexpected {:?}", other),
    }
    assert_eq!(existing.len(), 2);
}

#[test]
fn sync_errors_without_anchor() {
    let incoming = vec![ChangeSet { header: rlsh("2.0"), items: vec![] }];
    let mut existing = vec![ChangeSet { header: rlsh("1.0"), items: vec![] }];
    match sync_one_from(&mut existing, &incoming) {
        Err(ChgError::Other(m)) => {
            assert_eq!(m, "No shared release; changelog is probably from a different project")
        }
        other => panic!("unexpected {:?}", other),
    }
    let only_unreleased = vec![ChangeSet { header: ChangesetHeader::Unreleased, items: vec![] }];
    let mut fresh: Vec<ChangeSet> = vec![];
    match sync_one_from(&mut fresh, &only_unreleased) {
        Err(ChgError::Other(m)) => assert_eq!(m, "There is nothing to synchronize"),
        other => panic!("unexpected {:?}", other),
    }
    assert!(fresh.is_empty());
}

#[test]
fn sync_bootstrap_merges_oldest_release() {
    let incoming = vec![
        ChangeSet { header: rlsh("2.0"), items: vec![ref_item("#3", "three")] },
        ChangeSet {
            header: rlsh("1.0"),
            items: vec![ref_item("#1", "one"), ref_item("#1", "one again"), tst_item("free")],
        },
    ];
    let mut existing = vec![ChangeSet { header: ChangesetHeader::Unreleased, items: vec![] }];
    assert!(sync_one_from(&mut existing, &incoming).unwrap());
    assert_eq!(existing.len(), 1);
    assert_eq!(version(&existing[0]), "1.0");
    let texts: Vec<&str> = existing[0].items.iter().map(|i| i.text.as_str()).collect();
    assert_eq!(texts, vec!["one again", "free"]);
}

#[test]
fn item_merge_skips_known_references() {
    let mut old = ChangeSet {
        header: ChangesetHeader::Unreleased,
        items: vec![ref_item("#1", "kept")],
    };
    let from = ChangeSet {
        header: ChangesetHeader::Unreleased,
        items: vec![ref_item("#2", "new"), ref_item("#1", "dup"), tst_item("free")],
    };
    assert_eq!(old.sync_from(&from), 2);
    let texts: Vec<&str> = old.items.iter().map(|i| i.text.as_str()).collect();
    assert_eq!(texts, vec!["new", "free", "kept"]);
}

#[test]
fn changelog_sync_refuses_empty() {
    let mut empty = ChangeLog::import_markdown("").unwrap();
    let other = ChangeLog::import_markdown("## 1.0 - 2020-01-01\n").unwrap();
    match empty.sync_from(&other) {
        Err(ChgError::Other(m)) => assert_eq!(m, "Cannot sync into empty changelog"),
        other => panic!("unexpected {:?}", other),
    }
}
