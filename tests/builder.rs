use changelog::builder::ChangeLogBuilder;
use changelog::changeset::ChangesetHeader;
use changelog::{ChangeItem, ChangeLogConfig, ChangeType};

#[test]
fn usage_primitives() {
    let mut builder = ChangeLogBuilder::new(ChangeLogConfig::default());
    builder.note("hello").unwrap();
    builder.note("Hello").unwrap();
    builder.section(ChangesetHeader::Unreleased);
    builder
        .item(ChangeItem {
            refs: vec![],
            change_type: ChangeType::Other,
            component: "".to_string(),
            text: "".to_string(),
            authors: vec![],
        })
        .unwrap();
    builder.note("World").unwrap();
    builder.note("world").unwrap();

    let changelog = builder.build();
    assert!(!changelog.changesets[0].header.is_release());
    assert_eq!(changelog.prolog, "\nhello\nHello");
    assert_eq!(changelog.epilog, "\nWorld\nworld");
}

#[test]
fn item_without_section_fails() {
    let mut builder = ChangeLogBuilder::new(ChangeLogConfig::default());
    let item = ChangeItem {
        refs: vec![],
        change_type: ChangeType::Other,
        component: "".to_string(),
        text: "x".to_string(),
        authors: vec![],
    };
    assert!(builder.item(item).is_err());
}
