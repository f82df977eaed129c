//! Stateful assembly of a [`ChangeLog`], one section, item or note at a time.

use vstd::prelude::*;
use crate::changelog::{
    ChangeItem, ChangeLog, ChangeLogV, ChangeSet, ChangeSetV, ChangesetHeader, HeaderV, ItemV,
    changesets_view, items_view,
};
use crate::config::ChangeLogConfig;
use crate::error::{ChgError, ChgErrorV};
use crate::text::push_char;

verus! {

/// What a builder holds: the text before the first section, the closed
/// changesets, the open one, and the text after the sections.
pub struct BuilderV {
    pub prolog: Seq<char>,
    pub closed: Seq<ChangeSetV>,
    pub current: Option<ChangeSetV>,
    pub epilog: Seq<char>,
}

pub open spec fn empty_builder() -> BuilderV {
    BuilderV { prolog: Seq::empty(), closed: Seq::empty(), current: None, epilog: Seq::empty() }
}

/// The open changeset, if any, joins the closed ones.
pub open spec fn close_section(b: BuilderV) -> BuilderV {
    match b.current {
        None => b,
        Some(c) => BuilderV { closed: b.closed.push(c), current: None, ..b },
    }
}

pub open spec fn open_section(b: BuilderV, h: HeaderV) -> BuilderV {
    BuilderV { current: Some(ChangeSetV { header: h, items: Seq::empty() }), ..close_section(b) }
}

pub open spec fn add_item(b: BuilderV, i: ItemV) -> BuilderV {
    match b.current {
        None => b,
        Some(c) => BuilderV {
            current: Some(ChangeSetV { items: c.items.push(i), ..c }),
            ..b
        },
    }
}

/// A note closes the open section; before any section it extends the prolog,
/// after one the epilog, each line led by a newline.
pub open spec fn add_note(b: BuilderV, line: Seq<char>) -> BuilderV {
    let c = close_section(b);
    if c.closed.len() == 0 {
        BuilderV { prolog: c.prolog + seq!['\n'] + line, ..c }
    } else {
        BuilderV { epilog: c.epilog + seq!['\n'] + line, ..c }
    }
}

pub open spec fn built(b: BuilderV) -> ChangeLogV {
    let c = close_section(b);
    ChangeLogV { prolog: c.prolog, changesets: c.closed, epilog: c.epilog }
}

/// Stateful helper that assembles a changelog while its source is read.
pub struct ChangeLogBuilder {
    current_section: Option<ChangeSet>,
    changelog: ChangeLog,
}

impl View for ChangeLogBuilder {
    type V = BuilderV;

    closed spec fn view(&self) -> BuilderV {
        BuilderV {
            prolog: self.changelog.prolog@,
            closed: changesets_view(self.changelog.changesets@),
            current: match self.current_section {
                None => None,
                Some(c) => Some(c@),
            },
            epilog: self.changelog.epilog@,
        }
    }
}

impl ChangeLogBuilder {
    pub fn new(config: ChangeLogConfig) -> (r: Self)
        ensures
            r@ == empty_builder(),
    {
        let r = ChangeLogBuilder {
            current_section: None,
            changelog: ChangeLog {
                meta: Vec::new(),
                prolog: String::new(),
                changesets: Vec::new(),
                epilog: String::new(),
                config,
            },
        };
        assert(changesets_view(r.changelog.changesets@) =~= Seq::empty());
        r
    }

    /// Closes the open section and opens one with `header`.
    pub fn section(&mut self, header: ChangesetHeader)
        ensures
            final(self)@ == open_section(old(self)@, header@),
    {
        self.current_section_close();
        let cs = ChangeSet { header, items: Vec::new() };
        assert(cs@.items =~= Seq::empty());
        self.current_section = Some(cs);
    }

    fn current_section_close(&mut self)
        ensures
            final(self)@ == close_section(old(self)@),
    {
        let current = self.current_section.take();
        match current {
            None => {},
            Some(c) => {
                let ghost before = self.changelog.changesets@;
                let ghost cv = c@;
                self.changelog.changesets.push(c);
                assert(changesets_view(self.changelog.changesets@) =~= changesets_view(
                    before,
                ).push(cv));
            },
        }
    }

    /// Adds an item to the open section; fails when no section is open.
    pub fn item(&mut self, item: ChangeItem) -> (r: Result<(), ChgError>)
        ensures
            old(self)@.current is Some ==> r is Ok && final(self)@ == add_item(old(self)@, item@),
            old(self)@.current is None ==> (r matches Err(e) && e@ == ChgErrorV::Other(
                "No section precedes this item"@,
            )) && final(self)@ == old(self)@,
    {
        match self.current_section.take() {
            None => Err(ChgError::Other("No section precedes this item".to_string())),
            Some(mut c) => {
                let ghost before = c.items@;
                let ghost iv = item@;
                c.items.push(item);
                assert(items_view(c.items@) =~= items_view(before).push(iv));
                self.current_section = Some(c);
                Ok(())
            },
        }
    }

    /// Adds a line of free text, by [`add_note`].
    pub fn note(&mut self, line: &str) -> (r: Result<(), ChgError>)
        ensures
            r is Ok,
            final(self)@ == add_note(old(self)@, line@),
    {
        self.current_section_close();
        let ghost c = self@;
        if self.changelog.changesets.len() == 0 {
            push_char(&mut self.changelog.prolog, '\n');
            self.changelog.prolog.append(line);
            assert(self.changelog.prolog@ =~= c.prolog + seq!['\n'] + line@);
        } else {
            push_char(&mut self.changelog.epilog, '\n');
            self.changelog.epilog.append(line);
            assert(self.changelog.epilog@ =~= c.epilog + seq!['\n'] + line@);
        }
        assert(self@ == add_note(old(self)@, line@));
        Ok(())
    }

    pub fn build(self) -> (r: ChangeLog)
        ensures
            r@ == built(self@),
            r.meta@.len() == 0,
    {
        let mut b = self;
        b.current_section_close();
        let ChangeLog { meta: _, prolog, changesets, epilog, config } = b.changelog;
        ChangeLog { meta: Vec::new(), prolog, changesets, epilog, config }
    }
}

} // verus!
