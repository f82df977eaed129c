use changelog::changeset::ChangesetHeader;
use changelog::imports::from_git_repo::CommitRecord;
use changelog::{ChangeLog, ChangeLogConfig, Date, ReleaseHeader};

fn commit(msg: &str, author: &str, tag: Option<&str>) -> CommitRecord {
    CommitRecord {
        message: msg.to_string(),
        author: author.to_string(),
        date: Date::new(2021, 5, 6).unwrap(),
        tag: tag.map(|t| t.to_string()),
    }
}

fn history() -> Vec<CommitRecord> {
    vec![
        commit("Add feature (#5)", "Ann", None),
        commit("anything", "Bob", Some("v1.1.0")),
        commit("Fix bug", "Bob", None),
        commit("Release 1.0.5", "Cid", None),
        commit("Revert \"oops\"", "Cid", None),
        commit("more", "Dan", Some("v1.0.0-YANKED")),
        commit("root", "Eve", Some("other-tag")),
    ]
}

fn versions(cl: &ChangeLog) -> Vec<String> {
    cl.changesets
        .iter()
        .map(|c| match &c.header {
            ChangesetHeader::Unreleased => "U".to_string(),
            ChangesetHeader::Release(rh) => rh.version.clone(),
        })
        .collect()
}

#[test]
fn import_history() {
    let cl = ChangeLog::import_git_commits(&history(), None, &ChangeLogConfig::default());
    assert_eq!(versions(&cl), vec!["U", "1.1.0", "1.0.5", "1.0.0-YANKED"]);
    assert_eq!(cl.changesets[0].items[0].refs, vec!["PR#5".to_string()]);
    assert_eq!(cl.changesets[0].items[0].text, "Add feature");
    assert_eq!(cl.changesets[0].items[0].authors, vec!["Ann".to_string()]);
    assert_eq!(cl.changesets[1].items[0].text, "Fix bug");
    assert_eq!(cl.changesets[1].items[0].component, "N/A");
    match &cl.changesets[2].header {
        ChangesetHeader::Release(rh) => {
            assert!(rh.yanked);
            assert_eq!(rh.tag, "1.0.5");
        }
        _ => panic!("release expected"),
    }
    match &cl.changesets[3].header {
        ChangesetHeader::Release(rh) => {
            assert!(rh.yanked);
            assert_eq!(rh.tag, "v1.0.0-YANKED");
        }
        _ => panic!("release expected"),
    }
    assert_eq!(cl.changesets[3].items[0].text, "root");
}

#[test]
fn import_stops_at_version() {
    let cl = ChangeLog::import_git_commits(&history(), Some("1.0.5"), &ChangeLogConfig::default());
    assert_eq!(versions(&cl), vec!["U", "1.1.0", "1.0.5"]);
    assert!(cl.changesets[2].items.is_empty());
}

#[test]
fn release_from_tag() {
    let d = Date::new(2020, 1, 1).unwrap();
    let rh = ReleaseHeader::release("rel-2.3", d, false).unwrap();
    assert_eq!(rh.version, "2.3");
    assert_eq!(rh.tag, "rel-2.3");
    assert!(ReleaseHeader::release("latest", d, false).is_none());
}

#[test]
fn release_tagged_keeps_fields() {
    let d = Date::new(2022, 7, 8).unwrap();
    let rh = ReleaseHeader::release_tagged("v9.1", "9.1", d, true);
    assert_eq!(rh.tag, "v9.1");
    assert_eq!(rh.version, "9.1");
    assert_eq!(rh.timestamp, d);
    assert!(rh.yanked);
}
