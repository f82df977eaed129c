use changelog::{ChangeLogConfig, ChgError};

#[test]
fn embedded_config_text() {
    let text = "intro\n<!-- CHANGELOG-CONFIG\n[git]\ntag_version_pattern = \"v\"\n-->\n## Unreleased\n";
    let inner = ChangeLogConfig::embedded_text(text).unwrap().unwrap();
    assert_eq!(inner, "[git]\ntag_version_pattern = \"v\"");
    assert!(ChangeLogConfig::embedded_text("no config").unwrap().is_none());
    match ChangeLogConfig::embedded_text("<!-- CHANGELOG-CONFIG\nx = 1\n") {
        Err(ChgError::ConfigReadError(m)) => assert_eq!(m, "missing end delimiter for embedded config"),
        other => panic!("unexpected {:?}", other),
    }
}

#[test]
fn framed_config_reads_back() {
    let framed = ChangeLogConfig::frame_embedded("a = 1\n");
    assert_eq!(framed, "<!-- CHANGELOG-CONFIG\na = 1\n-->");
    assert_eq!(ChangeLogConfig::embedded_text(&framed).unwrap().unwrap(), "a = 1");
}
