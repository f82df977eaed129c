use changelog::changeset::ChangesetHeader;
use changelog::{ChangeItem, ChangeType, ChgError, Date, ReleaseHeader};

#[test]
fn test_parse_section_header_unreleased() {
    let header = ChangesetHeader::parse_section_header("Unreleased").unwrap();
    assert!(!header.is_release(), "Unreleased expected here");
}

#[test]
fn test_parse_section_header_released() {
    let header = ChangesetHeader::parse_section_header("2.5.6 - 2020-12-10").unwrap();
    match header {
        ChangesetHeader::Unreleased => panic!("Release expected here"),
        ChangesetHeader::Release(ReleaseHeader { version, tag, timestamp, yanked }) => {
            assert_eq!(version, "2.5.6", "version");
            assert_eq!(tag, "", "tag");
            assert_eq!(yanked, false, "yanked");
            let ts = Date::new(2020, 12, 10).unwrap();
            assert_eq!(timestamp, ts);
        }
    }
}

#[test]
fn test_parse_section_header_released_noseparator_yanked() {
    let header = ChangesetHeader::parse_section_header("1.22.333-alpha-1 2021-04-20 YANKED").unwrap();
    match header {
        ChangesetHeader::Unreleased => panic!("Release expected here"),
        ChangesetHeader::Release(ReleaseHeader { version, tag, timestamp, yanked }) => {
            assert_eq!(version, "1.22.333-alpha-1", "version");
            assert_eq!(tag, "", "tag");
            assert_eq!(yanked, true, "yanked");
            let ts = Date::new(2021, 04, 20).unwrap();
            assert_eq!(timestamp, ts);
        }
    }
}

#[test]
fn test_parse_item() {
    let item = ChangeItem::parse_item("- PR#629: [java] parse the UUID of mojo. close #628 / Qiang Kou").unwrap();
    assert_eq!(item.is_some(), true, "No section item was parsed");
    let item = item.unwrap();
    assert_eq!(item.refs.len(), 1, "Refs: {:?}", item.refs);
    assert_eq!(item.refs[0], "PR#629", "Refs: {:?}", item.refs);
    assert_eq!(item.component, "java");
    assert_eq!(item.change_type, ChangeType::Other);
    assert_eq!(item.text, "parse the UUID of mojo. close #628");
    assert_eq!(item.authors.len(), 1, "Authors: {:?}", item.authors);
    assert_eq!(item.authors[0], "Qiang Kou", "Authors: {:?}", item.authors);
}

#[test]
fn test_parse_item_with_fire() {
    let item = ChangeItem::parse_item("- [HOTFIX] :fire: Wrong grep expression in our Jenkinsfile / mmalohlava").unwrap();
    assert_eq!(item.is_some(), true, "No section item was parsed");
    let item = item.unwrap();
    assert_eq!(item.refs.len(), 0, "Refs: {:?}", item.refs);
    assert_eq!(item.component, "HOTFIX", "component");
    assert_eq!(item.change_type, ChangeType::Other);
    assert_eq!(item.text, ":fire: Wrong grep expression in our Jenkinsfile");
    assert_eq!(item.authors.len(), 1, "Author count: {:?}", item.authors);
    assert_eq!(item.authors[0], "mmalohlava", "Authors: {:?}", item.authors);
}

#[test]
fn header_with_dash_and_lowercase_yanked() {
    match ChangesetHeader::parse_section_header("  3.0.1 - 2019-2-3 yanked-by-ci ").unwrap() {
        ChangesetHeader::Release(rh) => {
            assert_eq!(rh.version, "3.0.1");
            assert_eq!(rh.timestamp, Date::new(2019, 2, 3).unwrap());
            assert!(rh.yanked);
        }
        _ => panic!("release expected"),
    }
    assert!(!ChangesetHeader::parse_section_header("unReleased").unwrap().is_release());
}

#[test]
fn header_errors() {
    match ChangesetHeader::parse_section_header("1.0") {
        Err(ChgError::MissingVersionDateSeparator(h)) => assert_eq!(h, "1.0"),
        other => panic!("unexpected {:?}", other),
    }
    match ChangesetHeader::parse_section_header("1.0 -") {
        Err(ChgError::MissingTimestamp(h)) => assert_eq!(h, "1.0 -"),
        other => panic!("unexpected {:?}", other),
    }
    match ChangesetHeader::parse_section_header("v1.0 - 2020-01-01") {
        Err(ChgError::InvalidVersionID(v, h)) => {
            assert_eq!(v, "v1.0");
            assert_eq!(h, "v1.0 - 2020-01-01");
        }
        other => panic!("unexpected {:?}", other),
    }
    match ChangesetHeader::parse_section_header("1.0 - 2021-02-29") {
        Err(ChgError::InvalidTimestamp(h, _reason)) => assert_eq!(h, "1.0 - 2021-02-29"),
        other => panic!("unexpected {:?}", other),
    }
    match ChangesetHeader::parse_section_header("1.0 - 2021-02-123") {
        Err(ChgError::InvalidTimestamp(h, _reason)) => assert_eq!(h, "1.0 - 2021-02-123"),
        other => panic!("unexpected {:?}", other),
    }
}

#[test]
fn leap_day_header() {
    match ChangesetHeader::parse_section_header("2.0 2020-02-29").unwrap() {
        ChangesetHeader::Release(rh) => assert_eq!(rh.timestamp, Date::new(2020, 2, 29).unwrap()),
        _ => panic!("release expected"),
    }
}

#[test]
fn item_shapes() {
    assert!(ChangeItem::parse_item("plain note").unwrap().is_none());
    let i = ChangeItem::parse_item("* X-1, PR#2 : fix it / A, B ,C").unwrap().unwrap();
    assert_eq!(i.refs, vec!["X-1".to_string(), "PR#2".to_string()]);
    let h = ChangeItem::parse_item("- #1: hash-led / A").unwrap().unwrap();
    assert!(h.refs.is_empty());
    assert_eq!(h.text, "#1: hash-led");
    assert_eq!(i.component, "");
    assert_eq!(i.text, "fix it");
    assert_eq!(i.authors, vec!["A".to_string(), "B".to_string(), "C".to_string()]);
    let i = ChangeItem::parse_item("- see a/b for details / me").unwrap().unwrap();
    assert_eq!(i.text, "see a/b for details");
    assert_eq!(i.authors, vec!["me".to_string()]);
    match ChangeItem::parse_item("- no author here") {
        Err(ChgError::InvalidItem(line)) => assert_eq!(line, "- no author here"),
        other => panic!("unexpected {:?}", other),
    }
}

#[test]
fn date_validity() {
    assert!(Date::new(2021, 2, 29).is_none());
    assert!(Date::new(2000, 2, 29).is_some());
    assert!(Date::new(1900, 2, 29).is_none());
    assert!(Date::new(2020, 13, 1).is_none());
    assert!(Date::new(10000, 1, 1).is_none());
}

#[test]
fn non_ascii_word_leads_references() {
    let i = ChangeItem::parse_item("- Ärger-7: fix / Zoë").unwrap().unwrap();
    assert_eq!(i.refs, vec!["Ärger-7".to_string()]);
    assert_eq!(i.text, "fix");
    let j = ChangeItem::parse_item("- «quoted»: note / Zoë").unwrap().unwrap();
    assert!(j.refs.is_empty());
    assert_eq!(j.text, "«quoted»: note");
}

#[test]
fn header_tokens_split_at_any_white_space() {
    match ChangesetHeader::parse_section_header("1.0\t-  2020-01-02   x  Yanked").unwrap() {
        ChangesetHeader::Release(rh) => {
            assert_eq!(rh.version, "1.0");
            assert_eq!(rh.timestamp, Date::new(2020, 1, 2).unwrap());
            assert!(rh.yanked);
        }
        _ => panic!("release expected"),
    }
    match ChangesetHeader::parse_section_header("1.0 2020-01-01 x YANKED").unwrap() {
        ChangesetHeader::Release(rh) => assert!(rh.yanked),
        _ => panic!("release expected"),
    }
    match ChangesetHeader::parse_section_header("1.0 2020-01-01 x y").unwrap() {
        ChangesetHeader::Release(rh) => assert!(!rh.yanked),
        _ => panic!("release expected"),
    }
}

#[test]
fn markdown_with_unterminated_config_fails() {
    match changelog::ChangeLog::import_markdown("<!-- CHANGELOG-CONFIG\n## Unreleased\n") {
        Err(ChgError::ConfigReadError(m)) => assert_eq!(m, "missing end delimiter for embedded config"),
        other => panic!("unexpected {:?}", other.map(|c| c.changesets.len())),
    }
}
