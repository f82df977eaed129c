use changelog::cli::{run_cli, Cli, CliAction, CliEvent, CliSession, Command};
use changelog::{ChangeLog, ChangeLogConfig, ChgError};

fn session(cmd: Command) -> CliSession {
    CliSession::new(Cli {
        cmd,
        verbose: 0,
        silent: 0,
        changelog_file: "CHANGELOG.md".to_string(),
        dir: ".".to_string(),
    })
}

#[test]
fn new_command_steps() {
    let mut s = session(Command::NewChangelog);
    match run_cli(&mut s, CliEvent::Started) {
        CliAction::CheckExists(p) => assert_eq!(p, "CHANGELOG.md"),
        other => panic!("unexpected {:?}", other),
    }
    match run_cli(&mut s, CliEvent::Exists(false)) {
        CliAction::WriteFile { path, text } => {
            assert_eq!(path, "CHANGELOG.md");
            assert_eq!(text, "## Unreleased\n");
        }
        other => panic!("unexpected {:?}", other),
    }
    assert!(matches!(run_cli(&mut s, CliEvent::Completed), CliAction::Done));
    match run_cli(&mut s, CliEvent::Exists(true)) {
        CliAction::Fail(ChgError::IOError(m)) => assert_eq!(m, "Changelog already exists in CHANGELOG.md"),
        other => panic!("unexpected {:?}", other),
    }
}

#[test]
fn info_command_prints_items() {
    let mut s = session(Command::Info);
    assert!(matches!(run_cli(&mut s, CliEvent::Started), CliAction::ReadFile(_)));
    let text = "## Unreleased\n\n- PR#1: one / A\n".to_string();
    match run_cli(&mut s, CliEvent::Text(text)) {
        CliAction::Print(t) => assert_eq!(t, "## Unreleased (1 items)\n* Refs: PR#1, 'one'\n"),
        other => panic!("unexpected {:?}", other),
    }
}

#[test]
fn sync_command_steps() {
    let mut s = session(Command::SyncFromGit);
    assert!(matches!(run_cli(&mut s, CliEvent::Started), CliAction::ReadFile(_)));
    let text = "## 1.0 - 2020-01-01\n".to_string();
    match run_cli(&mut s, CliEvent::Text(text)) {
        CliAction::ImportHistory { dir, stop_version } => {
            assert_eq!(dir, ".");
            assert_eq!(stop_version, Some("1.0".to_string()));
        }
        other => panic!("unexpected {:?}", other),
    }
    let new = ChangeLog::import_markdown("## 1.1 - 2020-02-01\n## 1.0 - 2020-01-01\n").unwrap();
    assert!(matches!(run_cli(&mut s, CliEvent::Imported(new)), CliAction::Done));
    assert_eq!(s.pending.as_ref().unwrap().changesets.len(), 2);
}

#[test]
fn unexpected_event_fails() {
    let mut s = session(Command::Info);
    let cl = ChangeLog::import_markdown("").unwrap();
    match run_cli(&mut s, CliEvent::Imported(cl)) {
        CliAction::Fail(ChgError::Other(m)) => assert_eq!(m, "unexpected event"),
        other => panic!("unexpected {:?}", other),
    }
    let _ = ChangeLogConfig::default();
}
