//! The decisions of the `chg` command line, as a step function: the caller
//! performs each action (file access, history import, printing) and hands back
//! what came of it.

use vstd::prelude::*;
use crate::changelog::{ChangeLog, ChangeLogV, ChangeSet, ChangeSetV, ChangesetHeader, HeaderV};
use crate::error::{ChgError, ChgErrorV};
use crate::imports::from_changelog::markdown_document;
use crate::render::{header_text, join, markdown_text};
use crate::sync::{SyncOutcome, sync_outcome};
use crate::text::{decimal, push_char, push_decimal};
use crate::builder::ChangeLogBuilder;
use crate::config::ChangeLogConfig;

verus! {

/// The subcommands.
#[derive(Debug)]
pub enum Command {
    /// write a changelog with an empty `Unreleased` section
    NewChangelog,
    /// write the changelog of the project's history
    InitFromGit { stop_version: Option<String> },
    /// show the items of the changelog
    Info,
    /// synchronize the changelog with the project's history
    SyncFromGit,
}

/// The parsed command line.
#[derive(Debug)]
pub struct Cli {
    pub cmd: Command,
    pub verbose: i8,
    pub silent: i8,
    pub changelog_file: String,
    pub dir: String,
}

/// What came of the last action.
pub enum CliEvent {
    Started,
    Exists(bool),
    Text(String),
    Imported(ChangeLog),
    Completed,
}

/// What the caller is to do next.
#[derive(Debug)]
pub enum CliAction {
    CheckExists(String),
    ReadFile(String),
    ImportHistory { dir: String, stop_version: Option<String> },
    WriteFile { path: String, text: String },
    Print(String),
    Done,
    Fail(ChgError),
}

pub enum CliActionV {
    CheckExists(Seq<char>),
    ReadFile(Seq<char>),
    ImportHistory { dir: Seq<char>, stop_version: Option<Seq<char>> },
    WriteFile { path: Seq<char>, text: Seq<char> },
    Print(Seq<char>),
    Done,
    Fail(ChgErrorV),
}

impl View for CliAction {
    type V = CliActionV;

    open spec fn view(&self) -> CliActionV {
        match self {
            CliAction::CheckExists(p) => CliActionV::CheckExists(p@),
            CliAction::ReadFile(p) => CliActionV::ReadFile(p@),
            CliAction::ImportHistory { dir, stop_version } => CliActionV::ImportHistory {
                dir: dir@,
                stop_version: match stop_version {
                    None => None,
                    Some(s) => Some(s@),
                },
            },
            CliAction::WriteFile { path, text } => CliActionV::WriteFile { path: path@, text: text@ },
            CliAction::Print(t) => CliActionV::Print(t@),
            CliAction::Done => CliActionV::Done,
            CliAction::Fail(e) => CliActionV::Fail(e@),
        }
    }
}

/// A command-line session: the command and the changelog read so far.
pub struct CliSession {
    pub cli: Cli,
    pub pending: Option<ChangeLog>,
}

/// A new changelog: one empty `Unreleased` section.
pub open spec fn new_changelog() -> ChangeLogV {
    ChangeLogV {
        prolog: Seq::empty(),
        changesets: seq![ChangeSetV { header: HeaderV::Unreleased, items: Seq::empty() }],
        epilog: Seq::empty(),
    }
}

/// Version of the newest release, if any.
pub open spec fn newest_release(cs: Seq<ChangeSetV>) -> Option<Seq<char>>
    decreases cs.len(),
{
    if cs.len() == 0 {
        None
    } else {
        match cs[0].header {
            HeaderV::Release { version, .. } => Some(version),
            HeaderV::Unreleased => newest_release(cs.drop_first()),
        }
    }
}

/// One line per changeset, `<header> (<n> items)`, each followed by a line
/// `* Refs: <refs>, '<text>'` per item.
pub open spec fn info_text(cs: Seq<ChangeSetV>) -> Seq<char>
    decreases cs.len(),
{
    if cs.len() == 0 {
        Seq::empty()
    } else {
        info_text(cs.drop_last()) + changeset_info(cs.last())
    }
}

pub open spec fn changeset_info(c: ChangeSetV) -> Seq<char> {
    header_text(c.header) + " ("@ + decimal(c.items.len()) + " items)\n"@ + items_info(c)
}

pub open spec fn items_info(c: ChangeSetV) -> Seq<char>
    decreases c.items.len(),
{
    if c.items.len() == 0 {
        Seq::empty()
    } else {
        let i = c.items.last();
        items_info(ChangeSetV { items: c.items.drop_last(), ..c }) + "* Refs: "@ + join(
            i.refs,
            ", "@,
        ) + ", '"@ + i.text + "'\n"@
    }
}

pub open spec fn unexpected() -> CliActionV {
    CliActionV::Fail(ChgErrorV::Other("unexpected event"@))
}

fn changeset_info_exec(out: &mut String, c: &ChangeSet)
    ensures
        final(out)@ == old(out)@ + changeset_info(c@),
{
    crate::render::print_header(out, &c.header);
    out.append(" (");
    push_decimal(out, c.items.len());
    out.append(" items)\n");
    let ghost start = out@;
    let ghost cv = c@;
    let mut i: usize = 0;
    while i < c.items.len()
        invariant
            i <= c.items@.len(),
            cv == c@,
            out@ == start + items_info(ChangeSetV { items: cv.items.take(i as int), ..cv }),
        decreases c.items.len() - i,
    {
        let item = &c.items[i];
        out.append("* Refs: ");
        crate::render::print_joined(out, &item.refs, ", ");
        out.append(", '");
        out.append(item.text.as_str());
        out.append("'\n");
        proof {
            let pre = ChangeSetV { items: cv.items.take(i + 1), ..cv };
            assert(pre.items.drop_last() =~= cv.items.take(i as int));
            assert(out@ =~= start + items_info(pre));
        }
        i = i + 1;
    }
    assert(cv.items.take(c.items@.len() as int) =~= cv.items);
    assert(out@ =~= old(out)@ + changeset_info(c@));
}

fn info_exec(cl: &ChangeLog) -> (r: String)
    ensures
        r@ == info_text(cl@.changesets),
{
    let mut out = String::new();
    let ghost cv = cl@.changesets;
    let mut i: usize = 0;
    while i < cl.changesets.len()
        invariant
            i <= cl.changesets@.len(),
            cv == cl@.changesets,
            out@ == info_text(cv.take(i as int)),
        decreases cl.changesets.len() - i,
    {
        changeset_info_exec(&mut out, &cl.changesets[i]);
        assert(cv.take(i + 1).drop_last() =~= cv.take(i as int));
        i = i + 1;
    }
    assert(cv.take(cl.changesets@.len() as int) =~= cv);
    out
}

fn newest_release_exec(cl: &ChangeLog) -> (r: Option<String>)
    ensures
        match newest_release(cl@.changesets) {
            None => r is None,
            Some(v) => r matches Some(x) && x@ == v,
        },
{
    let ghost cv = cl@.changesets;
    let mut i: usize = 0;
    assert(cv.skip(0) =~= cv);
    while i < cl.changesets.len()
        invariant
            i <= cl.changesets@.len(),
            cv == cl@.changesets,
            newest_release(cv) == newest_release(cv.skip(i as int)),
        decreases cl.changesets.len() - i,
    {
        assert(cv.skip(i as int).drop_first() =~= cv.skip(i + 1));
        match &cl.changesets[i].header {
            ChangesetHeader::Release(rh) => {
                return Some(rh.version.clone());
            },
            ChangesetHeader::Unreleased => {},
        }
        i = i + 1;
    }
    None
}

fn unexpected_event() -> (r: CliAction)
    ensures
        r@ == unexpected(),
{
    CliAction::Fail(ChgError::Other("unexpected event".to_string()))
}

impl CliSession {
    pub fn new(cli: Cli) -> (r: Self)
        ensures
            r.pending is None,
            r.cli == cli,
    {
        CliSession { cli, pending: None }
    }
}

/// One step of the session. `new` checks that the file is absent and writes a
/// new changelog; `init` imports the history and writes its changelog; `info`
/// reads the changelog and prints its items; `sync` reads the changelog,
/// imports the history down to its newest release and synchronizes one step.
/// Any other event fails the session.
pub fn run_cli(session: &mut CliSession, event: CliEvent) -> (r: CliAction)
    ensures
        final(session).cli == old(session).cli,
        ({
            let file = old(session).cli.changelog_file@;
            let dir = old(session).cli.dir@;
            match (old(session).cli.cmd, event) {
                (Command::NewChangelog, CliEvent::Started) => r@ == CliActionV::CheckExists(file),
                (Command::NewChangelog, CliEvent::Exists(true)) => r@ == CliActionV::Fail(
                    ChgErrorV::IOError("Changelog already exists in "@ + file),
                ),
                (Command::NewChangelog, CliEvent::Exists(false)) => r@ == CliActionV::WriteFile {
                    path: file,
                    text: markdown_text(new_changelog()),
                },
                (Command::InitFromGit { stop_version }, CliEvent::Started) => r@
                    == CliActionV::ImportHistory {
                    dir,
                    stop_version: match stop_version {
                        None => None,
                        Some(s) => Some(s@),
                    },
                },
                (Command::InitFromGit { .. }, CliEvent::Imported(cl)) => r@ == CliActionV::WriteFile {
                    path: file,
                    text: markdown_text(cl@),
                },
                (Command::Info, CliEvent::Started) => r@ == CliActionV::ReadFile(file),
                (Command::Info, CliEvent::Text(t)) => r@ == match markdown_document(t@) {
                    Err(e) => CliActionV::Fail(e),
                    Ok(c) => CliActionV::Print(info_text(c.changesets)),
                },
                (Command::SyncFromGit, CliEvent::Started) => r@ == CliActionV::ReadFile(file),
                (Command::SyncFromGit, CliEvent::Text(t)) => match markdown_document(t@) {
                    Err(e) => r@ == CliActionV::Fail(e),
                    Ok(c) => (r@ == CliActionV::ImportHistory {
                        dir,
                        stop_version: newest_release(c.changesets),
                    }) && (final(session).pending matches Some(p) && p@ == c),
                },
                (Command::SyncFromGit, CliEvent::Imported(new)) => match old(session).pending {
                    None => r@ == unexpected(),
                    Some(p) => if p@.changesets.len() == 0 {
                        r@ == CliActionV::Fail(ChgErrorV::Other("Cannot sync into empty changelog"@))
                    } else {
                        match sync_outcome(p@.changesets, new@.changesets) {
                            SyncOutcome::Failed(m) => r@ == CliActionV::Fail(ChgErrorV::Other(m)),
                            _ => r@ == CliActionV::Done,
                        }
                    },
                },
                (_, CliEvent::Completed) => r@ == CliActionV::Done,
                _ => r@ == unexpected(),
            }
        }),
{
    let file = session.cli.changelog_file.clone();
    let dir = session.cli.dir.clone();
    match (&session.cli.cmd, event) {
        (Command::NewChangelog, CliEvent::Started) => CliAction::CheckExists(file),
        (Command::NewChangelog, CliEvent::Exists(true)) => {
            let mut msg = "Changelog already exists in ".to_string();
            msg.append(file.as_str());
            CliAction::Fail(ChgError::IOError(msg))
        },
        (Command::NewChangelog, CliEvent::Exists(false)) => {
            let mut builder = ChangeLogBuilder::new(ChangeLogConfig::default());
            builder.section(ChangesetHeader::Unreleased);
            let changelog = builder.build();
            assert(changelog@ =~= new_changelog());
            CliAction::WriteFile { path: file, text: changelog.to_markdown() }
        },
        (Command::InitFromGit { stop_version }, CliEvent::Started) => {
            let stop = match stop_version {
                None => None,
                Some(s) => Some(s.clone()),
            };
            CliAction::ImportHistory { dir, stop_version: stop }
        },
        (Command::InitFromGit { .. }, CliEvent::Imported(cl)) => CliAction::WriteFile {
            path: file,
            text: cl.to_markdown(),
        },
        (Command::Info, CliEvent::Started) => CliAction::ReadFile(file),
        (Command::Info, CliEvent::Text(t)) => match ChangeLog::import_markdown(t.as_str()) {
            Err(e) => CliAction::Fail(e),
            Ok(cl) => CliAction::Print(info_exec(&cl)),
        },
        (Command::SyncFromGit, CliEvent::Started) => CliAction::ReadFile(file),
        (Command::SyncFromGit, CliEvent::Text(t)) => match ChangeLog::import_markdown(t.as_str()) {
            Err(e) => CliAction::Fail(e),
            Ok(cl) => {
                let stop = newest_release_exec(&cl);
                session.pending = Some(cl);
                CliAction::ImportHistory { dir, stop_version: stop }
            },
        },
        (Command::SyncFromGit, CliEvent::Imported(new)) => {
            let pending = session.pending.take();
            match pending {
                None => unexpected_event(),
                Some(mut cl) => {
                    let r = cl.sync_from(&new);
                    let action = match r {
                        Err(e) => CliAction::Fail(e),
                        Ok(_) => CliAction::Done,
                    };
                    session.pending = Some(cl);
                    action
                },
            }
        },
        (_, CliEvent::Completed) => CliAction::Done,
        _ => unexpected_event(),
    }
}

} // verus!
