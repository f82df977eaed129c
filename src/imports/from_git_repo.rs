//! Import of a first-parent commit history, newest first, into changesets.

use vstd::prelude::*;
use crate::builder::{
    BuilderV, ChangeLogBuilder, add_item, built, close_section, empty_builder, open_section,
};
use crate::changelog::{
    ChangeItem, ChangeLog, ChangeLogV, ChangeType, ChangesetHeader, Date, HeaderV, ItemV,
    ReleaseHeader, unreleased_only_first,
};
use crate::config::ChangeLogConfig;
use crate::changelog::ChangeSetV;
use crate::imports::commit_msg::{CommitMessage, CommitMessageAnalyzer, CommitMessageV, classify};
use crate::text::{
    chars_of, contains_ignore_ascii_case, contains_ignore_case, has_at, is_digit, occurs_at,
    string_from, string_of,
};

verus! {

/// One commit of the history: its message, author name, author date, and the
/// name of the tag that points at it, if any.
#[derive(Debug)]
pub struct CommitRecord {
    pub message: String,
    pub author: String,
    pub date: Date,
    pub tag: Option<String>,
}

pub struct CommitV {
    pub message: Seq<char>,
    pub author: Seq<char>,
    pub date: Date,
    pub tag: Option<Seq<char>>,
}

impl View for CommitRecord {
    type V = CommitV;

    open spec fn view(&self) -> CommitV {
        CommitV {
            message: self.message@,
            author: self.author@,
            date: self.date,
            tag: match self.tag {
                None => None,
                Some(t) => Some(t@),
            },
        }
    }
}

/// `s` from its first ASCII digit on.
pub open spec fn from_first_digit(s: Seq<char>) -> Seq<char>
    decreases s.len(),
{
    if s.len() > 0 && !is_digit(s[0]) {
        from_first_digit(s.drop_first())
    } else {
        s
    }
}

/// The release of a tag: its version is the tag from its first digit on; a
/// tag without a digit makes no release.
pub open spec fn release_of_tag(tag: Seq<char>, timestamp: Date, yanked: bool) -> Option<HeaderV> {
    let version = from_first_digit(tag);
    if version.len() == 0 {
        None
    } else {
        Some(HeaderV::Release { version, tag, timestamp, yanked })
    }
}

/// The prefix that marks a version tag: the configured pattern, `v` by default.
pub open spec fn tag_prefix(pattern: Seq<char>) -> Seq<char> {
    if pattern.len() > 0 {
        pattern
    } else {
        "v"@
    }
}

/// The release that a commit's tag opens, if the tag marks a version.
pub open spec fn tagged_release(c: CommitV, prefix: Seq<char>) -> Option<HeaderV> {
    match c.tag {
        None => None,
        Some(t) => if occurs_at(t, prefix, 0) {
            release_of_tag(t, c.date, contains_ignore_ascii_case(t, "YANKED"@))
        } else {
            None
        },
    }
}

/// Whether the history goes on after a release of version `v` was opened.
pub open spec fn goes_on(stop: Option<Seq<char>>, h: HeaderV) -> bool {
    stop != h.version()
}

/// One commit read into the builder, and whether to read on. A version tag
/// opens a release; otherwise a contribution becomes an item, a release
/// message opens a yanked release (it was never tagged), and anything else is
/// passed over. Reading stops right after the release of `stop`.
pub open spec fn commit_step(b: BuilderV, c: CommitV, stop: Option<Seq<char>>, prefix: Seq<char>) -> (
    BuilderV,
    bool,
) {
    match tagged_release(c, prefix) {
        Some(h) => (open_section(b, h), goes_on(stop, h)),
        None => match classify(c.message) {
            CommitMessageV::Contribution { component, refs, subject, .. } => (
                add_item(
                    b,
                    ItemV {
                        refs,
                        change_type: ChangeType::Other,
                        component,
                        text: subject,
                        authors: seq![c.author],
                    },
                ),
                true,
            ),
            CommitMessageV::Release { version } => match release_of_tag(version, c.date, true) {
                Some(h) => (open_section(b, h), goes_on(stop, h)),
                None => (b, true),
            },
            _ => (b, true),
        },
    }
}

/// The builder after reading `commits` from index `i` on, until a step says to stop.
pub open spec fn history_from(
    b: BuilderV,
    commits: Seq<CommitV>,
    i: int,
    stop: Option<Seq<char>>,
    prefix: Seq<char>,
) -> BuilderV
    decreases commits.len() - i,
{
    if i < 0 || i >= commits.len() {
        b
    } else {
        let (b2, more) = commit_step(b, commits[i], stop, prefix);
        if more {
            history_from(b2, commits, i + 1, stop, prefix)
        } else {
            b2
        }
    }
}

/// The changelog imported from a history: an `Unreleased` changeset, then one per release.
pub open spec fn imported(commits: Seq<CommitV>, stop: Option<Seq<char>>, prefix: Seq<char>) -> ChangeLogV {
    built(
        history_from(
            open_section(empty_builder(), HeaderV::Unreleased),
            commits,
            0,
            stop,
            prefix,
        ),
    )
}

pub open spec fn opt_view(s: Option<&str>) -> Option<Seq<char>> {
    match s {
        None => None,
        Some(t) => Some(t@),
    }
}

impl ReleaseHeader {
    pub fn release_tagged(tag: &str, version: &str, timestamp: Date, yanked: bool) -> (r: Self)
        ensures
            r.tag@ == tag@,
            r.version@ == version@,
            r.timestamp == timestamp,
            r.yanked == yanked,
    {
        ReleaseHeader { version: version.to_string(), tag: tag.to_string(), timestamp, yanked }
    }

    /// The release of `tag`, by [`release_of_tag`].
    pub fn release(tag: &str, timestamp: Date, yanked: bool) -> (r: Option<Self>)
        ensures
            match release_of_tag(tag@, timestamp, yanked) {
                None => r is None,
                Some(h) => r matches Some(x) && ChangesetHeader::Release(x)@ == h,
            },
    {
        let t = chars_of(tag);
        let mut k: usize = 0;
        assert(t@.subrange(0, t@.len() as int) =~= t@);
        while k < t.len() && !('0' <= t[k] && t[k] <= '9')
            invariant
                k <= t@.len(),
                from_first_digit(t@) == from_first_digit(t@.subrange(k as int, t@.len() as int)),
            decreases t.len() - k,
        {
            assert(t@.subrange(k as int, t@.len() as int).drop_first() =~= t@.subrange(
                k + 1,
                t@.len() as int,
            ));
            k = k + 1;
        }
        assert(t@.subrange(0, t@.len() as int) =~= t@);
        if k == t.len() {
            assert(t@.subrange(k as int, t@.len() as int) =~= Seq::<char>::empty());
            return None;
        }
        Some(
            ReleaseHeader {
                version: string_of(t.as_slice(), k, t.len()),
                tag: tag.to_string(),
                timestamp,
                yanked,
            },
        )
    }
}

fn opt_eq(stop: Option<&str>, v: &String) -> (r: bool)
    ensures
        r == (opt_view(stop) == Some(v@)),
{
    match stop {
        None => false,
        Some(s) => {
            let sv = s.to_string();
            sv == *v
        },
    }
}

impl ChangeLogBuilder {
    /// The release that the tag `tag_name` opens, if it starts with `prefix`.
    fn tag_name_to_version(tag_name: &str, prefix: &str, date: Date) -> (r: Option<ReleaseHeader>)
        ensures
            match release_of_tag(tag_name@, date, contains_ignore_ascii_case(tag_name@, "YANKED"@)) {
                Some(h) => occurs_at(tag_name@, prefix@, 0) ==> (r matches Some(x)
                    && ChangesetHeader::Release(x)@ == h),
                None => true,
            },
            !occurs_at(tag_name@, prefix@, 0) || release_of_tag(tag_name@, date, true) is None
                ==> r is None,
    {
        let t = chars_of(tag_name);
        let p = chars_of(prefix);
        if !has_at(t.as_slice(), 0, p.as_slice()) {
            return None;
        }
        let marker = chars_of("YANKED");
        let yanked = contains_ignore_case(t.as_slice(), marker.as_slice());
        let r = ReleaseHeader::release(tag_name, date, yanked);
        proof {
            if release_of_tag(tag_name@, date, true) is None {
                assert(release_of_tag(tag_name@, date, yanked) is None);
            }
        }
        r
    }

    /// Processes a commit without a version tag; returns whether to read on.
    fn handle_untagged_commit(
        &mut self,
        stop_version: Option<&str>,
        author: &str,
        ts: Date,
        cm: CommitMessage,
    ) -> (r: bool)
        requires
            old(self)@.current is Some,
        ensures
            final(self)@.current is Some,
            ({
                let (b, more) = match cm@ {
                    CommitMessageV::Contribution { component, refs, subject, .. } => (
                        add_item(
                            old(self)@,
                            ItemV {
                                refs,
                                change_type: ChangeType::Other,
                                component,
                                text: subject,
                                authors: seq![author@],
                            },
                        ),
                        true,
                    ),
                    CommitMessageV::Release { version } => match release_of_tag(version, ts, true) {
                        Some(h) => (open_section(old(self)@, h), goes_on(opt_view(stop_version), h)),
                        None => (old(self)@, true),
                    },
                    _ => (old(self)@, true),
                };
                final(self)@ == b && r == more
            }),
    {
        match cm {
            CommitMessage::Contribution { component, refs, subject, details: _ } => {
                let mut authors: Vec<String> = Vec::new();
                authors.push(author.to_string());
                let item = ChangeItem {
                    refs,
                    change_type: ChangeType::Other,
                    component,
                    text: subject,
                    authors,
                };
                assert(item@.authors =~= seq![author@]);
                let _ = self.item(item);
                true
            },
            CommitMessage::Release { version } => {
                match ReleaseHeader::release(version.as_str(), ts, true) {
                    Some(rh) => {
                        let more = !opt_eq(stop_version, &rh.version);
                        self.section(ChangesetHeader::Release(rh));
                        more
                    },
                    None => true,
                }
            },
            CommitMessage::PostRelease { ref_ver: _ } => true,
            CommitMessage::Revert { orig_msg: _ } => true,
        }
    }

    /// Reads one commit, by [`commit_step`]; returns whether to read on.
    pub fn handle_commit(
        &mut self,
        commit: &CommitRecord,
        stop_version: Option<&str>,
        tag_prefix: &str,
        analyzer: &CommitMessageAnalyzer,
    ) -> (r: bool)
        requires
            old(self)@.current is Some,
            analyzer.wf(),
        ensures
            final(self)@.current is Some,
            (final(self)@, r) == commit_step(old(self)@, commit@, opt_view(stop_version), tag_prefix@),
    {
        let tagged = match &commit.tag {
            Some(tag_name) => ChangeLogBuilder::tag_name_to_version(
                tag_name.as_str(),
                tag_prefix,
                commit.date,
            ),
            None => None,
        };
        match tagged {
            Some(rh) => {
                let more = !opt_eq(stop_version, &rh.version);
                self.section(ChangesetHeader::Release(rh));
                more
            },
            None => {
                let cm = analyzer.analyze(commit.message.as_str());
                self.handle_untagged_commit(stop_version, commit.author.as_str(), commit.date, cm)
            },
        }
    }

    /// Reads `commits` (newest first) into a builder whose first section is
    /// `Unreleased`, until the release of `stop_version` is opened.
    pub fn traverse_commits(
        &mut self,
        commits: &[CommitRecord],
        stop_version: Option<&str>,
        tag_prefix: &str,
    )
        requires
            old(self)@.current is Some,
        ensures
            final(self)@ == history_from(
                old(self)@,
                commits@.map_values(|c: CommitRecord| c@),
                0,
                opt_view(stop_version),
                tag_prefix@,
            ),
    {
        let ghost cs = commits@.map_values(|c: CommitRecord| c@);
        let analyzer = CommitMessageAnalyzer::init();
        let mut i: usize = 0;
        while i < commits.len()
            invariant
                i <= commits@.len(),
                cs == commits@.map_values(|c: CommitRecord| c@),
                analyzer.wf(),
                self@.current is Some,
                history_from(old(self)@, cs, 0, opt_view(stop_version), tag_prefix@)
                    == history_from(self@, cs, i as int, opt_view(stop_version), tag_prefix@),
            decreases commits.len() - i,
        {
            let more = self.handle_commit(&commits[i], stop_version, tag_prefix, &analyzer);
            if !more {
                return;
            }
            i = i + 1;
        }
    }
}

impl ChangeLog {
    /// The changelog of a first-parent history, newest commit first, by [`imported`];
    /// a version tag is one that starts with the configured pattern (`v` by default).
    pub fn import_git_commits(
        commits: &[CommitRecord],
        stop_version: Option<&str>,
        config: &ChangeLogConfig,
    ) -> (r: Self)
        ensures
            r@ == imported(
                commits@.map_values(|c: CommitRecord| c@),
                opt_view(stop_version),
                tag_prefix(config.git.tag_version_pattern@),
            ),
            r.meta@.len() == 0,
    {
        let prefix = if config.git.tag_version_pattern.as_str().is_empty() {
            "v".to_string()
        } else {
            config.git.tag_version_pattern.clone()
        };
        let mut builder = ChangeLogBuilder::new(config.clone());
        builder.section(ChangesetHeader::Unreleased);
        builder.traverse_commits(commits, stop_version, prefix.as_str());
        builder.build()
    }
}

/// The builder's changesets, the open one last, start with the one
/// `Unreleased` changeset, and a section is open.
pub open spec fn imports_shape(b: BuilderV) -> bool {
    let all = close_section(b).closed;
    &&& b.current is Some
    &&& all.len() > 0
    &&& all[0].header is Unreleased
    &&& unreleased_only_first(all)
}

proof fn lemma_step_keeps_shape(b: BuilderV, c: CommitV, stop: Option<Seq<char>>, prefix: Seq<char>)
    requires
        imports_shape(b),
    ensures
        imports_shape(commit_step(b, c, stop, prefix).0),
{
    let all = close_section(b).closed;
    match tagged_release(c, prefix) {
        Some(h) => {
            assert(h is Release);
            let b2 = open_section(b, h);
            let all2 = all.push(ChangeSetV { header: h, items: Seq::empty() });
            assert(close_section(b2).closed =~= all2);
            assert(all2[0] == all[0]);
            assert(unreleased_only_first(all2));
        },
        None => match classify(c.message) {
            CommitMessageV::Contribution { component, refs, subject, .. } => {
                let i = ItemV {
                    refs,
                    change_type: ChangeType::Other,
                    component,
                    text: subject,
                    authors: seq![c.author],
                };
                let b2 = add_item(b, i);
                let cur = b.current->0;
                let all2 = all.update(all.len() - 1, ChangeSetV { items: cur.items.push(i), ..cur });
                assert(all.last() == cur);
                assert(close_section(b2).closed =~= all2);
                assert(all2[0].header == all[0].header);
                assert(unreleased_only_first(all2)) by {
                    assert forall|k: int| 0 < k < all2.len() implies all2[k].header is Release by {
                        assert(all2[k].header == all[k].header);
                    }
                }
            },
            CommitMessageV::Release { version } => match release_of_tag(version, c.date, true) {
                Some(h) => {
                    let b2 = open_section(b, h);
                    let all2 = all.push(ChangeSetV { header: h, items: Seq::empty() });
                    assert(close_section(b2).closed =~= all2);
                    assert(all2[0] == all[0]);
                    assert(unreleased_only_first(all2));
                },
                None => {},
            },
            _ => {},
        },
    }
}

proof fn lemma_history_keeps_shape(
    b: BuilderV,
    commits: Seq<CommitV>,
    i: int,
    stop: Option<Seq<char>>,
    prefix: Seq<char>,
)
    requires
        imports_shape(b),
    ensures
        imports_shape(history_from(b, commits, i, stop, prefix)),
    decreases commits.len() - i,
{
    if 0 <= i < commits.len() {
        lemma_step_keeps_shape(b, commits[i], stop, prefix);
        let (b2, more) = commit_step(b, commits[i], stop, prefix);
        if more {
            lemma_history_keeps_shape(b2, commits, i + 1, stop, prefix);
        }
    }
}

/// An imported changelog starts with its one `Unreleased` changeset; all the
/// others are releases.
pub proof fn lemma_imported_unreleased_first(
    commits: Seq<CommitV>,
    stop: Option<Seq<char>>,
    prefix: Seq<char>,
)
    ensures
        imported(commits, stop, prefix).changesets.len() > 0,
        imported(commits, stop, prefix).changesets[0].header is Unreleased,
        unreleased_only_first(imported(commits, stop, prefix).changesets),
{
    let b0 = open_section(empty_builder(), HeaderV::Unreleased);
    assert(close_section(b0).closed =~= seq![ChangeSetV { header: HeaderV::Unreleased, items: Seq::empty() }]);
    lemma_history_keeps_shape(b0, commits, 0, stop, prefix);
}

} // verus!
