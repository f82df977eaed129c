//! Classification of commit messages into typed events.
//!
//! The rules are written over characters: white space is Unicode
//! `White_Space`, digits are the ASCII digits, and words such as `release` or
//! `close` match in any case of ASCII letters.

use vstd::prelude::*;
use crate::text::{
    ascii_lower, ascii_lower_char, chars_of, eq_ignore_ascii_case, eq_ignore_case, has_at,
    is_digit, is_space, is_space_char, occurs_at, split_chars, split_on, string_from, string_of,
    trim, trim_bounds, vec_of, pieces_view, lemma_split_on_nonempty,
};
use crate::changelog::strings_view;

verus! {

/// What a commit message announces.
#[derive(Debug)]
pub enum CommitMessage {
    /// A change of the code: its component, references, subject and details.
    Contribution { component: String, refs: Vec<String>, subject: String, details: String },
    /// A release of `version`.
    Release { version: String },
    /// A switch back to a development version; no rule produces it yet.
    PostRelease { ref_ver: String },
    /// The revert of the commit whose message is `orig_msg`.
    Revert { orig_msg: String },
}

pub enum CommitMessageV {
    Contribution {
        component: Seq<char>,
        refs: Seq<Seq<char>>,
        subject: Seq<char>,
        details: Seq<char>,
    },
    Release { version: Seq<char> },
    PostRelease { ref_ver: Seq<char> },
    Revert { orig_msg: Seq<char> },
}

impl View for CommitMessage {
    type V = CommitMessageV;

    open spec fn view(&self) -> CommitMessageV {
        match self {
            CommitMessage::Contribution { component, refs, subject, details } => {
                CommitMessageV::Contribution {
                    component: component@,
                    refs: strings_view(refs@),
                    subject: subject@,
                    details: details@,
                }
            },
            CommitMessage::Release { version } => CommitMessageV::Release { version: version@ },
            CommitMessage::PostRelease { ref_ver } => CommitMessageV::PostRelease {
                ref_ver: ref_ver@,
            },
            CommitMessage::Revert { orig_msg } => CommitMessageV::Revert { orig_msg: orig_msg@ },
        }
    }
}

/// End of the run of white space from `p`.
pub open spec fn spaces_end(s: Seq<char>, p: int) -> int
    decreases s.len() - p,
{
    if 0 <= p < s.len() && is_space(s[p]) {
        spaces_end(s, p + 1)
    } else {
        p
    }
}

/// End of the run of ASCII digits from `p`.
pub open spec fn digits_end(s: Seq<char>, p: int) -> int
    decreases s.len() - p,
{
    if 0 <= p < s.len() && is_digit(s[p]) {
        digits_end(s, p + 1)
    } else {
        p
    }
}

/// First ASCII digit at or after `p`, or `s.len()`.
pub open spec fn next_digit(s: Seq<char>, p: int) -> int
    decreases s.len() - p,
{
    if p >= s.len() {
        s.len() as int
    } else if p >= 0 && is_digit(s[p]) {
        p
    } else {
        next_digit(s, p + 1)
    }
}

pub open spec fn is_version_char(c: char) -> bool {
    is_digit(c) || c == '.' || c == '-'
}

/// End of the run of digits, dots and dashes from `p`.
pub open spec fn version_end(s: Seq<char>, p: int) -> int
    decreases s.len() - p,
{
    if 0 <= p < s.len() && is_version_char(s[p]) {
        version_end(s, p + 1)
    } else {
        p
    }
}

/// Last dot or dash in `[lo, hi)`, or -1.
pub open spec fn last_dot_or_dash(s: Seq<char>, lo: int, hi: int) -> int
    decreases hi - lo,
{
    if hi <= lo {
        -1
    } else if s[hi - 1] == '.' || s[hi - 1] == '-' {
        hi - 1
    } else {
        last_dot_or_dash(s, lo, hi - 1)
    }
}

/// The release rule at `p`: `release`, `releases` or `released` in any case,
/// white space, anything but digits, then the version: digits, dots and dashes
/// from the first digit on (or, with no digit left, the last dot or dash).
pub open spec fn release_at(t: Seq<char>, p: int) -> Option<Seq<char>> {
    if 0 <= p && p + 7 <= t.len() && eq_ignore_ascii_case(t.subrange(p, p + 7), "release"@) {
        let q = if p + 7 < t.len() && (ascii_lower(t[p + 7]) == 's' || ascii_lower(t[p + 7])
            == 'd') {
            p + 8
        } else {
            p + 7
        };
        if q < t.len() && is_space(t[q]) {
            let w = spaces_end(t, q);
            let d = next_digit(t, w);
            if d < t.len() {
                Some(t.subrange(d, version_end(t, d)))
            } else {
                let e = last_dot_or_dash(t, w, t.len() as int);
                if e >= 0 {
                    Some(t.subrange(e, e + 1))
                } else {
                    None
                }
            }
        } else {
            None
        }
    } else {
        None
    }
}

/// The release rule at the leftmost place where it matches, from `p` on.
pub open spec fn release_from(t: Seq<char>, p: int) -> Option<Seq<char>>
    decreases t.len() - p,
{
    if p >= t.len() {
        None
    } else {
        match release_at(t, p) {
            Some(v) => Some(v),
            None => release_from(t, p + 1),
        }
    }
}

/// `Merge pull request #<digits> from ` at `p`: the number.
pub open spec fn merge_at(t: Seq<char>, p: int) -> Option<Seq<char>> {
    let n = p + 20;
    if occurs_at(t, "Merge pull request #"@, p) {
        let e = digits_end(t, n);
        if e > n && occurs_at(t, " from "@, e) {
            Some(t.subrange(n, e))
        } else {
            None
        }
    } else {
        None
    }
}

pub open spec fn merge_from(t: Seq<char>, p: int) -> Option<Seq<char>>
    decreases t.len() - p,
{
    if p >= t.len() {
        None
    } else {
        match merge_at(t, p) {
            Some(v) => Some(v),
            None => merge_from(t, p + 1),
        }
    }
}

/// Squash form `<subject> (#<digits>)`: number and subject.
pub open spec fn squash(t: Seq<char>) -> Option<(Seq<char>, Seq<char>)> {
    if t.len() >= 5 && t.last() == ')' {
        let r = crate::imports::from_changelog::digits_start(t, t.len() - 1);
        if r < t.len() - 1 && r >= 3 && occurs_at(t, " (#"@, r - 3) {
            Some((t.subrange(r, t.len() - 1), t.subrange(0, r - 3)))
        } else {
            None
        }
    } else {
        None
    }
}

/// A line without the carriage return that may end it.
pub open spec fn strip_cr(l: Seq<char>) -> Seq<char> {
    if l.len() > 0 && l.last() == '\r' {
        l.drop_last()
    } else {
        l
    }
}

/// Index of the first line from `k` on that is not blank, or `lines.len()`.
pub open spec fn first_filled(lines: Seq<Seq<char>>, k: int) -> int
    decreases lines.len() - k,
{
    if k >= lines.len() {
        lines.len() as int
    } else if k >= 0 && trim(strip_cr(lines[k])).len() > 0 {
        k
    } else {
        first_filled(lines, k + 1)
    }
}

/// Pull-request number and subject: a merge commit takes its subject from the
/// first line after the first one that is not blank (else the first line); a
/// squash merge from the first line before ` (#<n>)`.
pub open spec fn pr_merge(lines: Seq<Seq<char>>) -> Option<(Seq<char>, Seq<char>)> {
    let first = strip_cr(lines[0]);
    match merge_from(first, 0) {
        Some(pr) => {
            let k = first_filled(lines, 1);
            Some((pr, if k < lines.len() { strip_cr(lines[k]) } else { first }))
        },
        None => squash(first),
    }
}

/// `[.]<space>close[s]<space>#<space><digits>` at `p`, any case, white space
/// optional where it may be empty: end of the fragment and the issue number.
pub open spec fn close_at(s: Seq<char>, p: int) -> Option<(int, Seq<char>)> {
    let q = if 0 <= p < s.len() && s[p] == '.' { p + 1 } else { p };
    if 0 <= q < s.len() && is_space(s[q]) {
        let w = spaces_end(s, q);
        if w + 5 <= s.len() && eq_ignore_ascii_case(s.subrange(w, w + 5), "close"@) {
            let x = if w + 5 < s.len() && ascii_lower(s[w + 5]) == 's' {
                w + 6
            } else {
                w + 5
            };
            let y = spaces_end(s, x);
            if y < s.len() && s[y] == '#' {
                let z = spaces_end(s, y + 1);
                let e = digits_end(s, z);
                if e > z {
                    Some((e, s.subrange(z, e)))
                } else {
                    None
                }
            } else {
                None
            }
        } else {
            None
        }
    } else {
        None
    }
}

/// The leftmost closing fragment from `p` on: where it starts, ends, and the issue.
pub open spec fn close_from(s: Seq<char>, p: int) -> Option<(int, int, Seq<char>)>
    decreases s.len() - p,
{
    if p >= s.len() {
        None
    } else {
        match close_at(s, p) {
            Some((e, issue)) => Some((p, e, issue)),
            None => close_from(s, p + 1),
        }
    }
}

pub open spec fn is_revert(msg: Seq<char>) -> bool {
    msg.len() >= 9 && occurs_at(msg, "Revert \""@, 0) && msg.last() == '"'
}

/// The classification of a commit message. The message is trimmed; an empty
/// one is an empty contribution; `Revert "<msg>"` is a revert; on the first
/// line the release rule comes first, then the pull-request rules, whose
/// subject loses a closing fragment that becomes a second reference; anything
/// else is a contribution to component `N/A` whose subject is the first line.
pub open spec fn classify(msg0: Seq<char>) -> CommitMessageV {
    let msg = trim(msg0);
    if msg.len() == 0 {
        CommitMessageV::Contribution {
            component: Seq::empty(),
            refs: Seq::empty(),
            subject: Seq::empty(),
            details: Seq::empty(),
        }
    } else if is_revert(msg) {
        CommitMessageV::Revert { orig_msg: msg.subrange(8, msg.len() - 1) }
    } else {
        let lines = split_on(msg, '\n');
        let first = strip_cr(lines[0]);
        match release_from(first, 0) {
            Some(v) => CommitMessageV::Release { version: v },
            None => match pr_merge(lines) {
                Some((pr, subject)) => {
                    let pr_ref = "PR#"@ + pr;
                    match close_from(subject, 0) {
                        Some((a, e, issue)) => CommitMessageV::Contribution {
                            component: Seq::empty(),
                            refs: seq![pr_ref, "#"@ + issue],
                            subject: subject.subrange(0, a) + subject.subrange(e, subject.len() as int),
                            details: Seq::empty(),
                        },
                        None => CommitMessageV::Contribution {
                            component: Seq::empty(),
                            refs: seq![pr_ref],
                            subject,
                            details: Seq::empty(),
                        },
                    }
                },
                None => CommitMessageV::Contribution {
                    component: "N/A"@,
                    refs: Seq::empty(),
                    subject: first,
                    details: Seq::empty(),
                },
            },
        }
    }
}

fn spaces_end_at(s: &[char], p: usize) -> (r: usize)
    requires
        p <= s@.len(),
    ensures
        r == spaces_end(s@, p as int),
        p <= r <= s@.len(),
{
    let mut k = p;
    while k < s.len() && is_space_char(s[k])
        invariant
            p <= k <= s@.len(),
            spaces_end(s@, p as int) == spaces_end(s@, k as int),
        decreases s.len() - k,
    {
        k = k + 1;
    }
    k
}

fn digits_end_at(s: &[char], p: usize) -> (r: usize)
    requires
        p <= s@.len(),
    ensures
        r == digits_end(s@, p as int),
        p <= r <= s@.len(),
{
    let mut k = p;
    while k < s.len() && '0' <= s[k] && s[k] <= '9'
        invariant
            p <= k <= s@.len(),
            digits_end(s@, p as int) == digits_end(s@, k as int),
        decreases s.len() - k,
    {
        k = k + 1;
    }
    k
}

fn version_end_at(s: &[char], p: usize) -> (r: usize)
    requires
        p <= s@.len(),
    ensures
        r == version_end(s@, p as int),
        p <= r <= s@.len(),
{
    let mut k = p;
    while k < s.len() && (('0' <= s[k] && s[k] <= '9') || s[k] == '.' || s[k] == '-')
        invariant
            p <= k <= s@.len(),
            version_end(s@, p as int) == version_end(s@, k as int),
        decreases s.len() - k,
    {
        k = k + 1;
    }
    k
}

fn next_digit_at(s: &[char], p: usize) -> (r: usize)
    requires
        p <= s@.len(),
    ensures
        r == next_digit(s@, p as int),
        p <= r <= s@.len(),
{
    let mut k = p;
    while k < s.len() && !('0' <= s[k] && s[k] <= '9')
        invariant
            p <= k <= s@.len(),
            next_digit(s@, p as int) == next_digit(s@, k as int),
        decreases s.len() - k,
    {
        k = k + 1;
    }
    k
}

fn last_dot_or_dash_at(s: &[char], lo: usize, hi: usize) -> (r: Option<usize>)
    requires
        lo <= hi <= s@.len(),
    ensures
        match r {
            None => last_dot_or_dash(s@, lo as int, hi as int) == -1,
            Some(k) => last_dot_or_dash(s@, lo as int, hi as int) == k && lo <= k < hi,
        },
{
    let mut k = hi;
    while k > lo
        invariant
            lo <= k <= hi <= s@.len(),
            last_dot_or_dash(s@, lo as int, hi as int) == last_dot_or_dash(s@, lo as int, k as int),
        decreases k - lo,
    {
        if s[k - 1] == '.' || s[k - 1] == '-' {
            return Some(k - 1);
        }
        k = k - 1;
    }
    None
}

fn release_at_exec(t: &[char], p: usize, release: &[char]) -> (r: Option<(usize, usize)>)
    requires
        p <= t@.len(),
        release@ == "release"@,
    ensures
        match release_at(t@, p as int) {
            None => r is None,
            Some(v) => r matches Some(x) && x.0 <= x.1 <= t@.len() && t@.subrange(
                x.0 as int,
                x.1 as int,
            ) == v,
        },
{
    if t.len() - p < 7 {
        return None;
    }
    let word = vec_of(t, p, p + 7);
    if !eq_ignore_case(word.as_slice(), release) {
        return None;
    }
    let q = if p + 7 < t.len() && (ascii_lower_char(t[p + 7]) == 's' || ascii_lower_char(t[p + 7])
        == 'd') {
        p + 8
    } else {
        p + 7
    };
    if !(q < t.len() && is_space_char(t[q])) {
        return None;
    }
    let w = spaces_end_at(t, q);
    let d = next_digit_at(t, w);
    if d < t.len() {
        let e = version_end_at(t, d);
        Some((d, e))
    } else {
        match last_dot_or_dash_at(t, w, t.len()) {
            Some(e) => Some((e, e + 1)),
            None => None,
        }
    }
}

fn release_from_exec(t: &[char]) -> (r: Option<(usize, usize)>)
    ensures
        match release_from(t@, 0) {
            None => r is None,
            Some(v) => r matches Some(x) && x.0 <= x.1 <= t@.len() && t@.subrange(
                x.0 as int,
                x.1 as int,
            ) == v,
        },
{
    let release = chars_of("release");
    let mut p: usize = 0;
    while p < t.len()
        invariant
            p <= t@.len(),
            release@ == "release"@,
            release_from(t@, 0) == release_from(t@, p as int),
        decreases t.len() - p,
    {
        match release_at_exec(t, p, release.as_slice()) {
            Some(x) => {
                return Some(x);
            },
            None => {},
        }
        p = p + 1;
    }
    None
}

fn merge_from_exec(t: &[char]) -> (r: Option<(usize, usize)>)
    ensures
        match merge_from(t@, 0) {
            None => r is None,
            Some(v) => r matches Some(x) && x.0 <= x.1 <= t@.len() && t@.subrange(
                x.0 as int,
                x.1 as int,
            ) == v,
        },
{
    let prefix = chars_of("Merge pull request #");
    let from = chars_of(" from ");
    proof {
        reveal_strlit("Merge pull request #");
    }
    let mut p: usize = 0;
    while p < t.len()
        invariant
            p <= t@.len(),
            prefix@ == "Merge pull request #"@,
            prefix@.len() == 20,
            from@ == " from "@,
            merge_from(t@, 0) == merge_from(t@, p as int),
        decreases t.len() - p,
    {
        if has_at(t, p, prefix.as_slice()) {
            let n = p + 20;
            let e = digits_end_at(t, n);
            if e > n && has_at(t, e, from.as_slice()) {
                return Some((n, e));
            }
        }
        p = p + 1;
    }
    None
}

fn squash_exec(t: &[char]) -> (r: Option<(usize, usize)>)
    ensures
        match squash(t@) {
            None => r is None,
            Some((pr, subject)) => r matches Some(x) && 3 <= x.0 < x.1 < t@.len()
                && t@.subrange(x.0 as int, x.1 as int) == pr && t@.subrange(0, x.0 - 3) == subject,
        },
{
    if !(t.len() >= 5 && t[t.len() - 1] == ')') {
        return None;
    }
    let mut r = t.len() - 1;
    while r > 0 && '0' <= t[r - 1] && t[r - 1] <= '9'
        invariant
            r <= t@.len() - 1,
            t@.len() >= 5,
            crate::imports::from_changelog::digits_start(t@, t@.len() - 1)
                == crate::imports::from_changelog::digits_start(t@, r as int),
        decreases r,
    {
        r = r - 1;
    }
    assert(crate::imports::from_changelog::digits_start(t@, r as int) == r as int);
    let marker = chars_of(" (#");
    if r < t.len() - 1 && r >= 3 && has_at(t, r - 3, marker.as_slice()) {
        Some((r, t.len() - 1))
    } else {
        None
    }
}

fn close_at_exec(s: &[char], p: usize, close: &[char]) -> (r: Option<(usize, usize, usize)>)
    requires
        p <= s@.len(),
        close@ == "close"@,
    ensures
        match close_at(s@, p as int) {
            None => r is None,
            Some((e, issue)) => r matches Some(x) && x.0 == p && x.2 == e && x.1 <= x.2 <= s@.len()
                && s@.subrange(x.1 as int, x.2 as int) == issue,
        },
{
    let q = if p < s.len() && s[p] == '.' {
        p + 1
    } else {
        p
    };
    if !(q < s.len() && is_space_char(s[q])) {
        return None;
    }
    let w = spaces_end_at(s, q);
    if s.len() - w < 5 {
        return None;
    }
    let word = vec_of(s, w, w + 5);
    if !eq_ignore_case(word.as_slice(), close) {
        return None;
    }
    let x = if w + 5 < s.len() && ascii_lower_char(s[w + 5]) == 's' {
        w + 6
    } else {
        w + 5
    };
    let y = spaces_end_at(s, x);
    if !(y < s.len() && s[y] == '#') {
        return None;
    }
    let z = spaces_end_at(s, y + 1);
    let e = digits_end_at(s, z);
    if e > z {
        Some((p, z, e))
    } else {
        None
    }
}

fn close_from_exec(s: &[char]) -> (r: Option<(usize, usize, usize)>)
    ensures
        match close_from(s@, 0) {
            None => r is None,
            Some((a, e, issue)) => r matches Some(x) && x.0 == a && x.2 == e && x.0 <= x.1
                <= x.2 <= s@.len() && s@.subrange(x.1 as int, x.2 as int) == issue,
        },
{
    let close = chars_of("close");
    let mut p: usize = 0;
    while p < s.len()
        invariant
            p <= s@.len(),
            close@ == "close"@,
            close_from(s@, 0) == close_from(s@, p as int),
        decreases s.len() - p,
    {
        match close_at_exec(s, p, close.as_slice()) {
            Some(x) => {
                proof {
                    lemma_close_at_start(s@, p as int);
                }
                return Some(x);
            },
            None => {},
        }
        p = p + 1;
    }
    None
}

proof fn lemma_close_at_start(s: Seq<char>, p: int)
    requires
        0 <= p < s.len(),
        close_at(s, p) is Some,
    ensures
        close_at(s, p) matches Some((e, issue)) && p <= e - issue.len(),
{
    let q = if s[p] == '.' { p + 1 } else { p };
    let w = spaces_end(s, q);
    lemma_spaces_end_bounds(s, q);
    let x = if w + 5 < s.len() && ascii_lower(s[w + 5]) == 's' { w + 6 } else { w + 5 };
    lemma_spaces_end_bounds(s, x);
    let y = spaces_end(s, x);
    lemma_spaces_end_bounds(s, y + 1);
    let z = spaces_end(s, y + 1);
    lemma_digits_end_bounds(s, z);
}

proof fn lemma_digits_end_bounds(s: Seq<char>, p: int)
    requires
        0 <= p <= s.len(),
    ensures
        p <= digits_end(s, p) <= s.len(),
    decreases s.len() - p,
{
    if 0 <= p < s.len() && is_digit(s[p]) {
        lemma_digits_end_bounds(s, p + 1);
    }
}

proof fn lemma_spaces_end_bounds(s: Seq<char>, p: int)
    requires
        0 <= p,
    ensures
        p <= spaces_end(s, p),
        p <= s.len() ==> spaces_end(s, p) <= s.len(),
    decreases s.len() - p,
{
    if 0 <= p < s.len() && is_space(s[p]) {
        lemma_spaces_end_bounds(s, p + 1);
    }
}

fn strip_cr_vec(l: &Vec<char>) -> (r: Vec<char>)
    ensures
        r@ == strip_cr(l@),
{
    if l.len() > 0 && l[l.len() - 1] == '\r' {
        vec_of(l.as_slice(), 0, l.len() - 1)
    } else {
        let r = vec_of(l.as_slice(), 0, l.len());
        assert(r@ =~= l@);
        r
    }
}

fn filled(l: &Vec<char>) -> (r: bool)
    ensures
        r == (trim(strip_cr(l@)).len() > 0),
{
    let c = strip_cr_vec(l);
    let (ta, tb) = trim_bounds(c.as_slice(), 0, c.len());
    assert(c@.subrange(0, c@.len() as int) =~= c@);
    ta < tb
}

/// Joins `a` and `b`.
fn concat_string(a: &str, b: &[char]) -> (r: String)
    ensures
        r@ == a@ + b@,
{
    let mut r = a.to_string();
    let t = string_from(b);
    r.append(t.as_str());
    r
}

/// The rules of the classifier, made once and shared.
pub struct CommitMessageAnalyzer {
    revert_prefix: String,
}

impl CommitMessageAnalyzer {
    pub closed spec fn wf(&self) -> bool {
        self.revert_prefix@ == "Revert \""@
    }

    pub fn init() -> (r: Self)
        ensures
            r.wf(),
    {
        CommitMessageAnalyzer { revert_prefix: "Revert \"".to_string() }
    }

    /// Classifies a commit message, by [`classify`].
    pub fn analyze(&self, msg: &str) -> (r: CommitMessage)
        requires
            self.wf(),
        ensures
            r@ == classify(msg@),
    {
        let all = chars_of(msg);
        let (a, b) = trim_bounds(all.as_slice(), 0, all.len());
        assert(all@.subrange(0, all@.len() as int) =~= all@);
        let m = vec_of(all.as_slice(), a, b);
        if m.len() == 0 {
            let r = CommitMessage::Contribution {
                component: String::new(),
                refs: Vec::new(),
                subject: String::new(),
                details: String::new(),
            };
            assert(strings_view(Seq::<String>::empty()) =~= Seq::<Seq<char>>::empty());
            return r;
        }
        let prefix = chars_of(self.revert_prefix.as_str());
        proof {
            reveal_strlit("Revert \"");
        }
        if m.len() >= 9 && has_at(m.as_slice(), 0, prefix.as_slice()) && m[m.len() - 1] == '"' {
            return CommitMessage::Revert { orig_msg: string_of(m.as_slice(), 8, m.len() - 1) };
        }
        let pieces = split_chars(m.as_slice(), '\n');
        proof {
            lemma_split_on_nonempty(m@, '\n');
        }
        let ghost lines = split_on(m@, '\n');
        assert(pieces@[0]@ == lines[0]);
        let first = strip_cr_vec(&pieces[0]);
        match release_from_exec(first.as_slice()) {
            Some((va, vb)) => {
                return CommitMessage::Release { version: string_of(first.as_slice(), va, vb) };
            },
            None => {},
        }
        let pr_subject: Option<(Vec<char>, Vec<char>)> = match merge_from_exec(first.as_slice()) {
            Some((pa, pb)) => {
                let pr = vec_of(first.as_slice(), pa, pb);
                let mut k: usize = 1;
                while k < pieces.len() && !filled(&pieces[k])
                    invariant
                        1 <= k <= pieces@.len(),
                        pieces_view(pieces@) == lines,
                        first_filled(lines, 1) == first_filled(lines, k as int),
                    decreases pieces.len() - k,
                {
                    assert(pieces@[k as int]@ == lines[k as int]);
                    k = k + 1;
                }
                proof {
                    if k < pieces.len() {
                        assert(pieces@[k as int]@ == lines[k as int]);
                    }
                }
                assert(k as int == first_filled(lines, 1));
                let subject = if k < pieces.len() {
                    strip_cr_vec(&pieces[k])
                } else {
                    vec_of(first.as_slice(), 0, first.len())
                };
                assert(first@.subrange(0, first@.len() as int) =~= first@);
                Some((pr, subject))
            },
            None => match squash_exec(first.as_slice()) {
                Some((ra, rb)) => Some(
                    (vec_of(first.as_slice(), ra, rb), vec_of(first.as_slice(), 0, ra - 3)),
                ),
                None => None,
            },
        };
        proof {
            assert(first@ == strip_cr(lines[0]));
            match &pr_subject {
                Some((pr, subject)) => {
                    assert(pr_merge(lines) == Some((pr@, subject@)));
                },
                None => {
                    assert(pr_merge(lines) is None);
                },
            }
        }
        match pr_subject {
            Some((pr, subject)) => {
                let mut refs: Vec<String> = Vec::new();
                let pr_ref = concat_string("PR#", pr.as_slice());
                let ghost pv = pr_ref@;
                refs.push(pr_ref);
                match close_from_exec(subject.as_slice()) {
                    Some((ca, ia, ce)) => {
                        let issue_ref = concat_string("#", vec_of(subject.as_slice(), ia, ce).as_slice());
                        let ghost iv = issue_ref@;
                        refs.push(issue_ref);
                        assert(strings_view(refs@) =~= seq![pv, iv]);
                        let mut s = string_of(subject.as_slice(), 0, ca);
                        let rest = string_of(subject.as_slice(), ce, subject.len());
                        s.append(rest.as_str());
                        let r = CommitMessage::Contribution {
                            component: String::new(),
                            refs,
                            subject: s,
                            details: String::new(),
                        };
                        assert(r@ == classify(msg@));
                        r
                    },
                    None => {
                        assert(strings_view(refs@) =~= seq![pv]);
                        let r = CommitMessage::Contribution {
                            component: String::new(),
                            refs,
                            subject: string_from(subject.as_slice()),
                            details: String::new(),
                        };
                        assert(r@ == classify(msg@));
                        r
                    },
                }
            },
            None => {
                let r = CommitMessage::Contribution {
                    component: "N/A".to_string(),
                    refs: Vec::new(),
                    subject: string_from(first.as_slice()),
                    details: String::new(),
                };
                assert(strings_view(Seq::<String>::empty()) =~= Seq::<Seq<char>>::empty());
                r
            },
        }
    }
}

} // verus!
