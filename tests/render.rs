use changelog::changeset::{ChangeSet, ChangesetHeader};
use changelog::{ChangeItem, ChangeLog, ChangeType, Date, ReleaseHeader};

fn sample() -> String {
    let text = "# Changelog\n\n## Unreleased\n\n- PR#12, #3: [core] speed up / Ann, Bob\n- [HOTFIX] fix build / Cid\n- plain text / Dan\n\n## 1.2.0 - 2020-01-05 [YANKED]\n## 1.1.0 - 0999-10-02\n\n- first / Eve\n\nThanks to everyone.\nSee you.\n";
    text.to_string()
}

#[test]
fn render_exact_text() {
    let cl = ChangeLog::import_markdown(&sample()).unwrap();
    let mut out = String::new();
    cl.print_markdown(&mut out);
    assert_eq!(out, sample());
}

#[test]
fn render_round_trip() {
    let cl = ChangeLog::import_markdown(&sample()).unwrap();
    let again = ChangeLog::import_markdown(&cl.to_markdown()).unwrap();
    assert_eq!(again.to_markdown(), cl.to_markdown());
    assert_eq!(again.prolog, "\n# Changelog");
    assert_eq!(again.epilog, "\nThanks to everyone.\nSee you.");
    assert_eq!(again.changesets.len(), 3);
    assert_eq!(again.changesets[0].items[0].refs, vec!["PR#12".to_string(), "#3".to_string()]);
    assert_eq!(again.changesets[0].items[0].authors, vec!["Ann".to_string(), "Bob".to_string()]);
}

#[test]
fn render_built_model() {
    let cl = ChangeLog::import_markdown("").unwrap();
    let mut model = cl;
    model.changesets.push(ChangeSet {
        header: ChangesetHeader::Release(ReleaseHeader {
            version: "0.1".to_string(),
            tag: "v0.1".to_string(),
            timestamp: Date::new(2021, 3, 4).unwrap(),
            yanked: false,
        }),
        items: vec![ChangeItem {
            refs: vec![],
            change_type: ChangeType::Other,
            component: "".to_string(),
            text: "initial".to_string(),
            authors: vec!["Zed".to_string()],
        }],
    });
    assert_eq!(model.to_markdown(), "## 0.1 - 2021-03-04\n\n- initial / Zed\n\n");
    let back = ChangeLog::import_markdown(&model.to_markdown()).unwrap();
    match &back.changesets[0].header {
        ChangesetHeader::Release(rh) => {
            assert_eq!(rh.version, "0.1");
            assert_eq!(rh.tag, "");
            assert_eq!(rh.timestamp, Date::new(2021, 3, 4).unwrap());
        }
        _ => panic!("release expected"),
    }
}

#[test]
fn markdown_item_error_aborts() {
    assert!(ChangeLog::import_markdown("## Unreleased\n- broken item\n").is_err());
}

#[test]
fn epilog_swallows_later_sections() {
    let cl = ChangeLog::import_markdown("## Unreleased\nnote\n## 1.0 - 2020-01-01\n").unwrap();
    assert_eq!(cl.changesets.len(), 1);
    assert_eq!(cl.epilog, "\nnote\n## 1.0 - 2020-01-01");
}

#[test]
fn round_trip_slash_in_refs_colon_in_authors() {
    let text = "## Unreleased\n\n- a/b, PR#2: fix / Dr: Who, Ann\n\n";
    let cl = ChangeLog::import_markdown(text).unwrap();
    let item = &cl.changesets[0].items[0];
    assert_eq!(item.refs, vec!["a/b".to_string(), "PR#2".to_string()]);
    assert_eq!(item.authors, vec!["Dr: Who".to_string(), "Ann".to_string()]);
    assert_eq!(cl.to_markdown(), text);
}
