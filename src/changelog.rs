//! The changelog data model: items, changesets, release headers and dates.

use vstd::prelude::*;
use crate::config::ChangeLogConfig;
use crate::text::is_digit;

verus! {

/// Kind of a change. Only `Other` is produced today; the rest exist for
/// classification to come and are carried through unchanged.
#[derive(Clone, Copy, Debug, PartialEq, Eq, Structural)]
pub enum ChangeType {
    Other,
    Added,
    Fixed,
    Changed,
    Deprecated,
    Removed,
    Refactored,
}

/// A calendar date.
#[derive(Clone, Copy, Debug, PartialEq, Eq, Structural)]
pub struct Date {
    pub year: i32,
    pub month: u32,
    pub day: u32,
}

pub open spec fn is_leap_year(y: int) -> bool {
    y % 4 == 0 && (y % 100 != 0 || y % 400 == 0)
}

pub open spec fn days_in_month(y: int, m: int) -> int {
    if m == 2 {
        if is_leap_year(y) {
            29
        } else {
            28
        }
    } else if m == 4 || m == 6 || m == 9 || m == 11 {
        30
    } else {
        31
    }
}

/// A date of the proleptic Gregorian calendar whose year has at most four digits.
pub open spec fn valid_date(y: int, m: int, d: int) -> bool {
    0 <= y <= 9999 && 1 <= m <= 12 && 1 <= d <= days_in_month(y, m)
}

impl Date {
    pub open spec fn wf(self) -> bool {
        valid_date(self.year as int, self.month as int, self.day as int)
    }

    /// The date with these fields, if it exists and its year has at most four digits.
    pub fn new(year: i32, month: u32, day: u32) -> (r: Option<Date>)
        ensures
            r is Some <==> valid_date(year as int, month as int, day as int),
            r matches Some(d) ==> d.year == year && d.month == month && d.day == day,
    {
        if year < 0 || year > 9999 || month < 1 || month > 12 || day < 1 {
            return None;
        }
        let leap = year % 4 == 0 && (year % 100 != 0 || year % 400 == 0);
        let last: u32 = if month == 2 {
            if leap {
                29
            } else {
                28
            }
        } else if month == 4 || month == 6 || month == 9 || month == 11 {
            30
        } else {
            31
        };
        if day > last {
            None
        } else {
            Some(Date { year, month, day })
        }
    }
}

/// Header of a released changeset.
#[derive(Debug)]
pub struct ReleaseHeader {
    pub version: String,
    pub tag: String,
    /// date of the release
    pub timestamp: Date,
    /// a withdrawn release: still shown, but flagged
    pub yanked: bool,
}

/// Header of a changeset: the unreleased bucket, or a release.
#[derive(Debug)]
pub enum ChangesetHeader {
    Unreleased,
    Release(ReleaseHeader),
}

/// One change in a changeset.
#[derive(Debug)]
pub struct ChangeItem {
    pub refs: Vec<String>,
    pub change_type: ChangeType,
    pub component: String,
    pub text: String,
    pub authors: Vec<String>,
}

/// Container of the changes of one version, released or not.
#[derive(Debug)]
pub struct ChangeSet {
    pub header: ChangesetHeader,
    pub items: Vec<ChangeItem>,
}

/// An entire changelog document.
#[derive(Debug)]
pub struct ChangeLog {
    /// opaque key/value pairs, carried along as given; no key occurs twice
    /// ([`keys_unique`])
    pub meta: Vec<(String, String)>,
    pub prolog: String,
    /// newest first
    pub changesets: Vec<ChangeSet>,
    pub epilog: String,
    pub config: ChangeLogConfig,
}

/// No key occurs twice among `meta`.
pub open spec fn keys_unique(meta: Seq<(String, String)>) -> bool {
    forall|a: int, b: int| 0 <= a < b < meta.len() ==> meta[a].0@ != meta[b].0@
}

pub struct ItemV {
    pub refs: Seq<Seq<char>>,
    pub change_type: ChangeType,
    pub component: Seq<char>,
    pub text: Seq<char>,
    pub authors: Seq<Seq<char>>,
}

pub enum HeaderV {
    Unreleased,
    Release { version: Seq<char>, tag: Seq<char>, timestamp: Date, yanked: bool },
}

pub struct ChangeSetV {
    pub header: HeaderV,
    pub items: Seq<ItemV>,
}

pub struct ChangeLogV {
    pub prolog: Seq<char>,
    pub changesets: Seq<ChangeSetV>,
    pub epilog: Seq<char>,
}

pub open spec fn strings_view(v: Seq<String>) -> Seq<Seq<char>> {
    v.map_values(|s: String| s@)
}

impl View for ChangeItem {
    type V = ItemV;

    open spec fn view(&self) -> ItemV {
        ItemV {
            refs: strings_view(self.refs@),
            change_type: self.change_type,
            component: self.component@,
            text: self.text@,
            authors: strings_view(self.authors@),
        }
    }
}

impl View for ChangesetHeader {
    type V = HeaderV;

    open spec fn view(&self) -> HeaderV {
        match self {
            ChangesetHeader::Unreleased => HeaderV::Unreleased,
            ChangesetHeader::Release(r) => HeaderV::Release {
                version: r.version@,
                tag: r.tag@,
                timestamp: r.timestamp,
                yanked: r.yanked,
            },
        }
    }
}

pub open spec fn items_view(v: Seq<ChangeItem>) -> Seq<ItemV> {
    v.map_values(|i: ChangeItem| i@)
}

impl View for ChangeSet {
    type V = ChangeSetV;

    open spec fn view(&self) -> ChangeSetV {
        ChangeSetV { header: self.header@, items: items_view(self.items@) }
    }
}

pub open spec fn changesets_view(v: Seq<ChangeSet>) -> Seq<ChangeSetV> {
    v.map_values(|c: ChangeSet| c@)
}

impl View for ChangeLog {
    type V = ChangeLogV;

    open spec fn view(&self) -> ChangeLogV {
        ChangeLogV {
            prolog: self.prolog@,
            changesets: changesets_view(self.changesets@),
            epilog: self.epilog@,
        }
    }
}

impl HeaderV {
    pub open spec fn version(self) -> Option<Seq<char>> {
        match self {
            HeaderV::Unreleased => None,
            HeaderV::Release { version, .. } => Some(version),
        }
    }
}

/// A release version: non-empty and led by an ASCII digit.
pub open spec fn valid_version(v: Seq<char>) -> bool {
    v.len() > 0 && is_digit(v[0])
}

/// The model's invariant on a list of changesets: an `Unreleased` changeset
/// may stand only at the front.
pub open spec fn unreleased_only_first(cs: Seq<ChangeSetV>) -> bool {
    forall|i: int| 0 < i < cs.len() ==> cs[i].header is Release
}

/// Copies a list of strings.
pub fn clone_strings(v: &Vec<String>) -> (r: Vec<String>)
    ensures
        strings_view(r@) == strings_view(v@),
{
    let mut r: Vec<String> = Vec::new();
    let mut i: usize = 0;
    while i < v.len()
        invariant
            i <= v.len(),
            r@.len() == i,
            forall|j: int| 0 <= j < i ==> #[trigger] r@[j]@ == v@[j]@,
        decreases v.len() - i,
    {
        r.push(v[i].clone());
        i = i + 1;
    }
    assert(strings_view(r@) =~= strings_view(v@));
    r
}

impl Clone for ReleaseHeader {
    fn clone(&self) -> (r: Self)
        ensures
            r.version@ == self.version@,
            r.tag@ == self.tag@,
            r.timestamp == self.timestamp,
            r.yanked == self.yanked,
    {
        ReleaseHeader {
            version: self.version.clone(),
            tag: self.tag.clone(),
            timestamp: self.timestamp,
            yanked: self.yanked,
        }
    }
}

impl Clone for ChangesetHeader {
    fn clone(&self) -> (r: Self)
        ensures
            r@ == self@,
    {
        match self {
            ChangesetHeader::Unreleased => ChangesetHeader::Unreleased,
            ChangesetHeader::Release(h) => ChangesetHeader::Release(h.clone()),
        }
    }
}

impl Clone for ChangeItem {
    fn clone(&self) -> (r: Self)
        ensures
            r@ == self@,
    {
        ChangeItem {
            refs: clone_strings(&self.refs),
            change_type: self.change_type,
            component: self.component.clone(),
            text: self.text.clone(),
            authors: clone_strings(&self.authors),
        }
    }
}

/// Copies a list of items.
pub fn clone_items(v: &Vec<ChangeItem>) -> (r: Vec<ChangeItem>)
    ensures
        items_view(r@) == items_view(v@),
{
    let mut r: Vec<ChangeItem> = Vec::new();
    let mut i: usize = 0;
    while i < v.len()
        invariant
            i <= v.len(),
            r@.len() == i,
            forall|j: int| 0 <= j < i ==> #[trigger] r@[j]@ == v@[j]@,
        decreases v.len() - i,
    {
        r.push(v[i].clone());
        i = i + 1;
    }
    assert(items_view(r@) =~= items_view(v@));
    r
}

impl Clone for ChangeSet {
    fn clone(&self) -> (r: Self)
        ensures
            r@ == self@,
    {
        ChangeSet { header: self.header.clone(), items: clone_items(&self.items) }
    }
}

impl ChangesetHeader {
    pub fn is_release(&self) -> (r: bool)
        ensures
            r == (self is Release),
    {
        match self {
            ChangesetHeader::Unreleased => false,
            ChangesetHeader::Release(_) => true,
        }
    }
}

} // verus!
