//! The markdown grammar of a changelog: section headers, item lines, and the
//! line-oriented machine that turns a document into a [`ChangeLog`].
//!
//! White space is Unicode `White_Space`; digits are the ASCII digits; `Unreleased`
//! and `YANKED` match in any case of ASCII letters; a word character is an
//! ASCII letter, digit or `_`, or a character beyond ASCII that
//! `char::is_alphanumeric` accepts.

use vstd::prelude::*;
use chrono::Datelike;
use crate::changelog::{
    ChangeItem, ChangeType, ChangesetHeader, Date, HeaderV, ItemV, ReleaseHeader, strings_view,
    valid_date,
};
use crate::builder::{
    BuilderV, ChangeLogBuilder, add_item, add_note, built, empty_builder, open_section,
};
use crate::changelog::{ChangeLog, ChangeLogV};
use crate::config::{ChangeLogConfig, embedded_config};
use crate::error::{ChgError, ChgErrorV};
use crate::text::{
    chars_of, contains_ignore_ascii_case, contains_ignore_case, eq_ignore_ascii_case,
    eq_ignore_case, is_digit, string_from, split_chars, split_on, string_of, trim,
    trim_bounds, vec_of, pieces_view, is_space, is_space_char,
};

verus! {

/// Value of a string of ASCII digits.
pub open spec fn digits_value(s: Seq<char>) -> nat
    decreases s.len(),
{
    if s.len() == 0 {
        0
    } else {
        digits_value(s.drop_last()) * 10 + ((s.last() as nat) - ('0' as nat)) as nat
    }
}

/// `d` is digits, `-` at `i`, digits, `-` at `j`, digits.
pub open spec fn ymd_at(d: Seq<char>, i: int, j: int) -> bool {
    &&& 0 < i
    &&& i + 1 < j
    &&& j + 1 < d.len()
    &&& d[i] == '-'
    &&& d[j] == '-'
    &&& forall|k: int| 0 <= k < d.len() && k != i && k != j ==> is_digit(#[trigger] d[k])
}

/// Text of chrono's refusal of `s` as a `%Y-%m-%d` date.
pub uninterp spec fn date_parse_error(s: Seq<char>) -> Seq<char>;

/// What reading `d`, laid out as [`ymd_at`] says, as year, month and day gives:
/// at most four year digits and two each of month and day, naming a calendar date.
pub open spec fn ymd_result(d: Seq<char>, i: int, j: int) -> Result<Date, Seq<char>> {
    let y = d.subrange(0, i);
    let m = d.subrange(i + 1, j);
    let dd = d.subrange(j + 1, d.len() as int);
    if y.len() <= 4 && m.len() <= 2 && dd.len() <= 2 && valid_date(
        digits_value(y) as int,
        digits_value(m) as int,
        digits_value(dd) as int,
    ) {
        Ok(
            Date {
                year: digits_value(y) as i32,
                month: digits_value(m) as u32,
                day: digits_value(dd) as u32,
            },
        )
    } else {
        Err(date_parse_error(d))
    }
}

pub open spec fn date_result_view(r: Result<Date, String>) -> Result<Date, Seq<char>> {
    match r {
        Ok(d) => Ok(d),
        Err(e) => Err(e@),
    }
}

/// Relies on chrono's `NaiveDate::parse_from_str` with `%Y-%m-%d`: on digits
/// separated by two dashes it reads at most four digits of year and two each of
/// month and day, and accepts exactly the dates of the calendar; a refusal
/// carries the text of chrono's error.
#[verifier::external_body]
fn parse_ymd(s: &str) -> (r: Result<Date, String>)
    requires
        exists|i: int, j: int| ymd_at(s@, i, j),
    ensures
        forall|i: int, j: int| #[trigger] ymd_at(s@, i, j) ==> date_result_view(r) == ymd_result(s@, i, j),
        r matches Err(e) ==> e@ == date_parse_error(s@),
{
    match chrono::NaiveDate::parse_from_str(s, "%Y-%m-%d") {
        Ok(d) => Ok(Date { year: d.year(), month: d.month(), day: d.day() }),
        Err(e) => Err(e.to_string()),
    }
}

/// Start of the run of ASCII digits that ends at `end`.
pub open spec fn digits_start(t: Seq<char>, end: int) -> int
    decreases end,
{
    if end > 0 && is_digit(t[end - 1]) {
        digits_start(t, end - 1)
    } else {
        end
    }
}

proof fn lemma_digits_start(t: Seq<char>, end: int)
    requires
        0 <= end <= t.len(),
    ensures
        0 <= digits_start(t, end) <= end,
        forall|k: int| digits_start(t, end) <= k < end ==> is_digit(#[trigger] t[k]),
        digits_start(t, end) == 0 || !is_digit(t[digits_start(t, end) - 1]),
    decreases end,
{
    if end > 0 && is_digit(t[end - 1]) {
        lemma_digits_start(t, end - 1);
    }
}

/// Where the trailing `<digits>-<digits>-<digits>` of `t` starts, with its two
/// dashes: the leftmost match of that pattern anchored at the end.
pub open spec fn date_suffix(t: Seq<char>) -> Option<(int, int, int)> {
    let a = digits_start(t, t.len() as int);
    if a == t.len() || a == 0 || t[a - 1] != '-' {
        None
    } else {
        let b = digits_start(t, a - 1);
        if b == a - 1 || b == 0 || t[b - 1] != '-' {
            None
        } else {
            let c = digits_start(t, b - 1);
            if c == b - 1 {
                None
            } else {
                Some((c, b - 1, a - 1))
            }
        }
    }
}

/// Whether token `next` of a section header flags the release as yanked.
pub open spec fn yanked_token(tokens: Seq<Seq<char>>, next: int) -> bool {
    exists|k: int|
        next <= k < tokens.len() && contains_ignore_ascii_case(#[trigger] tokens[k], "YANKED"@)
}

/// `s` with each white-space character replaced by a space.
pub open spec fn spaces_unified(s: Seq<char>) -> Seq<char> {
    s.map_values(|c: char| if is_space(c) { ' ' } else { c })
}

/// The tokens of `s`: its maximal runs of characters other than white space.
pub open spec fn words(s: Seq<char>) -> Seq<Seq<char>> {
    nonblank(split_on(spaces_unified(s), ' '))
}

/// The release header of a section whose timestamp token is `ts`.
pub open spec fn release_of(
    s: Seq<char>,
    version: Seq<char>,
    ts: Seq<char>,
    yanked: bool,
) -> Result<HeaderV, ChgErrorV> {
    match date_suffix(ts) {
        None => Err(ChgErrorV::InvalidTimestamp(ts, s)),
        Some((c, i, j)) => match ymd_result(ts.subrange(c, ts.len() as int), i - c, j - c) {
            Err(reason) => Err(ChgErrorV::InvalidTimestamp(s, reason)),
            Ok(date) => Ok(
                HeaderV::Release { version, tag: Seq::empty(), timestamp: date, yanked },
            ),
        },
    }
}

/// The section header grammar. `Unreleased` in any case of ASCII letters, or
/// `<version> [-] <timestamp> <more>...` in tokens separated by white space:
/// the version starts with an ASCII digit, the timestamp ends in
/// `<digits>-<digits>-<digits>` (ASCII digits) naming a date, and any token of
/// `<more>` that contains `YANKED` in any case of ASCII letters flags the
/// release as yanked.
pub open spec fn section_header(s0: Seq<char>) -> Result<HeaderV, ChgErrorV> {
    let s = trim(s0);
    if eq_ignore_ascii_case(s, "unreleased"@) {
        Ok(HeaderV::Unreleased)
    } else {
        let t = words(s);
        let version = if t.len() > 0 {
            t[0]
        } else {
            Seq::empty()
        };
        if version.len() == 0 || !is_digit(version[0]) {
            Err(ChgErrorV::InvalidVersionID(version, s))
        } else if t.len() < 2 {
            Err(ChgErrorV::MissingVersionDateSeparator(s))
        } else if t[1] == seq!['-'] {
            if t.len() < 3 {
                Err(ChgErrorV::MissingTimestamp(s))
            } else {
                release_of(s, version, t[2], yanked_token(t, 3))
            }
        } else {
            release_of(s, version, t[1], yanked_token(t, 2))
        }
    }
}

fn is_digit_char(c: char) -> (r: bool)
    ensures
        r == is_digit(c),
{
    '0' <= c && c <= '9'
}

fn digits_start_at(t: &[char], end: usize) -> (r: usize)
    requires
        end <= t@.len(),
    ensures
        r == digits_start(t@, end as int),
{
    let mut k = end;
    while k > 0 && is_digit_char(t[k - 1])
        invariant
            k <= end,
            end <= t@.len(),
            digits_start(t@, end as int) == digits_start(t@, k as int),
        decreases k,
    {
        k = k - 1;
    }
    k
}

fn date_suffix_at(t: &[char]) -> (r: Option<(usize, usize, usize)>)
    ensures
        match date_suffix(t@) {
            None => r is None,
            Some((c, i, j)) => r matches Some(x) && x.0 == c && x.1 == i && x.2 == j,
        },
{
    proof {
        lemma_digits_start(t@, t@.len() as int);
    }
    let a = digits_start_at(t, t.len());
    if a == t.len() || a == 0 || t[a - 1] != '-' {
        return None;
    }
    proof {
        lemma_digits_start(t@, a - 1);
    }
    let b = digits_start_at(t, a - 1);
    if b == a - 1 || b == 0 || t[b - 1] != '-' {
        return None;
    }
    proof {
        lemma_digits_start(t@, b - 1);
    }
    let c = digits_start_at(t, b - 1);
    if c == b - 1 {
        return None;
    }
    Some((c, b - 1, a - 1))
}

fn release_at(s: &Vec<char>, version: &Vec<char>, ts: &Vec<char>, yanked: bool) -> (r: Result<
    ChangesetHeader,
    ChgError,
>)
    ensures
        match r {
            Ok(h) => release_of(s@, version@, ts@, yanked) == Ok::<HeaderV, ChgErrorV>(h@),
            Err(e) => release_of(s@, version@, ts@, yanked) == Err::<HeaderV, ChgErrorV>(e@),
        },
{
    match date_suffix_at(ts.as_slice()) {
        None => Err(
            ChgError::InvalidTimestamp(string_from(ts.as_slice()), string_from(s.as_slice())),
        ),
        Some((c, i, j)) => {
            proof {
                let t = ts@;
                lemma_digits_start(t, t.len() as int);
                let a = digits_start(t, t.len() as int);
                lemma_digits_start(t, a - 1);
                let b = digits_start(t, a - 1);
                lemma_digits_start(t, b - 1);
                let d = t.subrange(c as int, t.len() as int);
                assert(date_suffix(t) == Some((c as int, i as int, j as int)));
                assert(i as int == b - 1 && j as int == a - 1);
                assert(c as int == digits_start(t, b - 1));
                assert forall|k: int| 0 <= k < d.len() && k != i - c && k != j - c implies is_digit(
                    #[trigger] d[k],
                ) by {
                    assert(d[k] == t[c + k]);
                }
                assert(ymd_at(d, i - c, j - c));
            }
            let d = string_of(ts.as_slice(), c, ts.len());
            match parse_ymd(d.as_str()) {
                Err(reason) => Err(ChgError::InvalidTimestamp(string_from(s.as_slice()), reason)),
                Ok(date) => {
                    let rh = ReleaseHeader {
                        version: string_from(version.as_slice()),
                        tag: String::new(),
                        timestamp: date,
                        yanked,
                    };
                    Ok(ChangesetHeader::Release(rh))
                },
            }
        },
    }
}

fn is_single_dash(v: &Vec<char>) -> (r: bool)
    ensures
        r == (v@ == seq!['-']),
{
    if v.len() == 1 && v[0] == '-' {
        assert(v@ =~= seq!['-']);
        true
    } else {
        false
    }
}

fn trimmed(v: &Vec<char>) -> (r: Vec<char>)
    ensures
        r@ == trim(v@),
{
    let (a, b) = trim_bounds(v.as_slice(), 0, v.len());
    assert(v@.subrange(0, v@.len() as int) =~= v@);
    vec_of(v.as_slice(), a, b)
}

impl ChangesetHeader {
    /// Parses the text of a section header (what follows `## `), by [`section_header`].
    pub fn parse_section_header(s: &str) -> (r: Result<ChangesetHeader, ChgError>)
        ensures
            match r {
                Ok(h) => section_header(s@) == Ok::<HeaderV, ChgErrorV>(h@),
                Err(e) => section_header(s@) == Err::<HeaderV, ChgErrorV>(e@),
            },
    {
        let all = chars_of(s);
        let t = trimmed(&all);
        let unreleased = chars_of("unreleased");
        if eq_ignore_case(t.as_slice(), unreleased.as_slice()) {
            return Ok(ChangesetHeader::Unreleased);
        }
        let tokens = words_of(t.as_slice());
        let empty: Vec<char> = Vec::new();
        let version = if tokens.len() > 0 {
            &tokens[0]
        } else {
            &empty
        };
        if version.len() == 0 || !is_digit_char(version[0]) {
            return Err(
                ChgError::InvalidVersionID(
                    string_from(version.as_slice()),
                    string_from(t.as_slice()),
                ),
            );
        }
        if tokens.len() < 2 {
            return Err(ChgError::MissingVersionDateSeparator(string_from(t.as_slice())));
        }
        if is_single_dash(&tokens[1]) {
            if tokens.len() < 3 {
                return Err(ChgError::MissingTimestamp(string_from(t.as_slice())));
            }
            let yanked = yanked_from(&tokens, 3);
            release_at(&t, version, &tokens[2], yanked)
        } else {
            let yanked = yanked_from(&tokens, 2);
            release_at(&t, version, &tokens[1], yanked)
        }
    }
}

/// The tokens of `v`, by [`words`].
fn words_of(v: &[char]) -> (r: Vec<Vec<char>>)
    ensures
        pieces_view(r@) == words(v@),
{
    let mut u: Vec<char> = Vec::new();
    let mut i: usize = 0;
    while i < v.len()
        invariant
            i <= v@.len(),
            u@ == spaces_unified(v@).take(i as int),
        decreases v.len() - i,
    {
        let c = if is_space_char(v[i]) {
            ' '
        } else {
            v[i]
        };
        u.push(c);
        assert(spaces_unified(v@).take(i + 1) =~= spaces_unified(v@).take(i as int).push(c));
        i = i + 1;
    }
    assert(spaces_unified(v@).take(v@.len() as int) =~= spaces_unified(v@));
    let pieces = split_chars(u.as_slice(), ' ');
    let ghost ps = pieces_view(pieces@);
    let mut r: Vec<Vec<char>> = Vec::new();
    let mut k: usize = 0;
    assert(ps.take(0) =~= Seq::<Seq<char>>::empty());
    while k < pieces.len()
        invariant
            k <= pieces@.len(),
            ps == pieces_view(pieces@),
            pieces_view(r@) == nonblank(ps.take(k as int)),
        decreases pieces.len() - k,
    {
        assert(ps.take(k + 1).drop_last() =~= ps.take(k as int));
        assert(ps.take(k + 1).last() == pieces@[k as int]@);
        if pieces[k].len() > 0 {
            let ghost before = r@;
            r.push(vec_of(pieces[k].as_slice(), 0, pieces[k].len()));
            assert(pieces@[k as int]@.subrange(0, pieces@[k as int]@.len() as int) =~= pieces@[k as int]@);
            assert(pieces_view(r@) =~= pieces_view(before).push(pieces@[k as int]@));
        }
        k = k + 1;
    }
    assert(ps.take(pieces@.len() as int) =~= ps);
    r
}

/// Whether a token from index `next` on contains `YANKED`, by [`yanked_token`].
fn yanked_from(tokens: &Vec<Vec<char>>, next: usize) -> (r: bool)
    ensures
        r == yanked_token(pieces_view(tokens@), next as int),
{
    let marker = chars_of("YANKED");
    let ghost t = pieces_view(tokens@);
    let mut k = next;
    while k < tokens.len()
        invariant
            next <= k,
            t == pieces_view(tokens@),
            marker@ == "YANKED"@,
            forall|q: int| next <= q < k && q < t.len() ==> !contains_ignore_ascii_case(
                #[trigger] t[q],
                "YANKED"@,
            ),
        decreases tokens.len() - k,
    {
        if contains_ignore_case(tokens[k].as_slice(), marker.as_slice()) {
            assert(contains_ignore_ascii_case(t[k as int], "YANKED"@));
            return true;
        }
        k = k + 1;
    }
    false
}


/// Whether `char::is_alphanumeric` holds of `c`.
pub uninterp spec fn is_alphanumeric(c: char) -> bool;

/// Relies on `char::is_alphanumeric`: whether `c` is a Unicode alphabetic or
/// numeric character.
#[verifier::external_body]
fn alphanumeric(c: char) -> (r: bool)
    ensures
        r == is_alphanumeric(c),
{
    c.is_alphanumeric()
}

/// A word character: an ASCII letter or digit, `_`, or an alphanumeric
/// character beyond ASCII.
pub open spec fn is_word(c: char) -> bool {
    if (c as u32) < 128 {
        is_digit(c) || ('a' <= c && c <= 'z') || ('A' <= c && c <= 'Z') || c == '_'
    } else {
        is_alphanumeric(c)
    }
}

/// The line starts with `- ` or `* `.
pub open spec fn is_item_line(s: Seq<char>) -> bool {
    s.len() >= 2 && (s[0] == '-' || s[0] == '*') && s[1] == ' '
}

/// The largest `k` in `[lo, hi)` with `s[k] == c`, or -1.
pub open spec fn last_in(s: Seq<char>, c: char, lo: int, hi: int) -> int
    decreases hi - lo,
{
    if hi <= lo {
        -1
    } else if s[hi - 1] == c {
        hi - 1
    } else {
        last_in(s, c, lo, hi - 1)
    }
}

/// The smallest `k` in `[lo, hi)` with `s[k] == c`, or -1.
pub open spec fn first_in(s: Seq<char>, c: char, lo: int, hi: int) -> int
    decreases hi - lo,
{
    if hi <= lo {
        -1
    } else if s[lo] == c {
        lo
    } else {
        first_in(s, c, lo + 1, hi)
    }
}

/// End of the run of white space that starts at `p`.
pub open spec fn space_run_end(s: Seq<char>, p: int) -> int
    decreases s.len() - p,
{
    if 0 <= p < s.len() && is_space(s[p]) {
        space_run_end(s, p + 1)
    } else {
        p
    }
}

/// End of the run of characters other than white space that starts at `p`.
pub open spec fn word_run_end(s: Seq<char>, p: int) -> int
    decreases s.len() - p,
{
    if 0 <= p < s.len() && !is_space(s[p]) {
        word_run_end(s, p + 1)
    } else {
        p
    }
}

pub open spec fn trim_all(ps: Seq<Seq<char>>) -> Seq<Seq<char>> {
    ps.map_values(|p: Seq<char>| trim(p))
}

/// Position of the colon that ends the references of body `b`, whose last
/// slash is at `l`: the first colon before `l`, past a leading word character.
pub open spec fn refs_colon(b: Seq<char>, l: int) -> int {
    if b.len() > 0 && is_word(b[0]) {
        first_in(b, ':', 1, l)
    } else {
        -1
    }
}

/// Position of the `]` that closes a component opening at `q`, or -1: the last
/// one within the run of non-space characters and before the last slash `l`.
pub open spec fn component_close(b: Seq<char>, q: int, l: int) -> int {
    if 0 <= q < b.len() && b[q] == '[' {
        let r = word_run_end(b, q + 1);
        last_in(b, ']', q + 2, if r < l { r } else { l })
    } else {
        -1
    }
}

/// The item grammar on the body of an item line (what follows `- ` or `* `):
/// `[<refs>:] [\[<component>\]] <text> / <authors>`. Authors follow the last
/// slash; references are comma separated and end at the first colon, when the
/// body starts with a word character; the component is bracketed and holds no
/// white space. Without a slash the body is no item.
pub open spec fn item_body(b: Seq<char>) -> Option<ItemV> {
    let l = last_in(b, '/', 0, b.len() as int);
    if l < 0 {
        None
    } else {
        let c = refs_colon(b, l);
        let refs = if c >= 0 {
            trim_all(split_on(b.subrange(0, c), ','))
        } else {
            Seq::empty()
        };
        let q = space_run_end(b, if c >= 0 { c + 1 } else { 0 });
        let e = component_close(b, q, l);
        let component = if e >= 0 { b.subrange(q + 1, e) } else { Seq::empty() };
        let start = if e >= 0 { e + 1 } else { q };
        Some(ItemV {
            refs,
            change_type: ChangeType::Other,
            component,
            text: trim(b.subrange(start, l)),
            authors: trim_all(split_on(b.subrange(l + 1, b.len() as int), ',')),
        })
    }
}

/// What an item line parses to: `Ok(None)` for a line that is no item line,
/// an error for an item line that breaks the grammar.
pub open spec fn item_line(s: Seq<char>) -> Result<Option<ItemV>, ChgErrorV> {
    if !is_item_line(s) {
        Ok(None)
    } else {
        match item_body(s.subrange(2, s.len() as int)) {
            None => Err(ChgErrorV::InvalidItem(s)),
            Some(i) => Ok(Some(i)),
        }
    }
}

fn last_at(s: &[char], c: char, lo: usize, hi: usize) -> (r: Option<usize>)
    requires
        lo <= hi <= s@.len(),
    ensures
        match r {
            None => last_in(s@, c, lo as int, hi as int) == -1,
            Some(k) => last_in(s@, c, lo as int, hi as int) == k && lo <= k < hi && s@[k as int] == c,
        },
{
    let mut k = hi;
    while k > lo
        invariant
            lo <= k <= hi <= s@.len(),
            last_in(s@, c, lo as int, hi as int) == last_in(s@, c, lo as int, k as int),
        decreases k - lo,
    {
        if s[k - 1] == c {
            return Some(k - 1);
        }
        k = k - 1;
    }
    None
}

fn first_at(s: &[char], c: char, lo: usize, hi: usize) -> (r: Option<usize>)
    requires
        lo <= hi <= s@.len(),
    ensures
        match r {
            None => first_in(s@, c, lo as int, hi as int) == -1,
            Some(k) => first_in(s@, c, lo as int, hi as int) == k && lo <= k < hi && s@[k as int] == c,
        },
{
    let mut k = lo;
    while k < hi
        invariant
            lo <= k <= hi <= s@.len(),
            first_in(s@, c, lo as int, hi as int) == first_in(s@, c, k as int, hi as int),
        decreases hi - k,
    {
        if s[k] == c {
            return Some(k);
        }
        k = k + 1;
    }
    None
}

fn space_run_end_at(s: &[char], p: usize) -> (r: usize)
    requires
        p <= s@.len(),
    ensures
        r == space_run_end(s@, p as int),
        p <= r <= s@.len(),
        forall|k: int| p <= k < r ==> is_space(#[trigger] s@[k]),
{
    let mut k = p;
    while k < s.len() && is_space_char(s[k])
        invariant
            p <= k <= s@.len(),
            forall|j: int| p <= j < k ==> is_space(#[trigger] s@[j]),
            space_run_end(s@, p as int) == space_run_end(s@, k as int),
        decreases s.len() - k,
    {
        k = k + 1;
    }
    k
}

fn word_run_end_at(s: &[char], p: usize) -> (r: usize)
    requires
        p <= s@.len(),
    ensures
        r == word_run_end(s@, p as int),
        p <= r <= s@.len(),
{
    let mut k = p;
    while k < s.len() && !is_space_char(s[k])
        invariant
            p <= k <= s@.len(),
            word_run_end(s@, p as int) == word_run_end(s@, k as int),
        decreases s.len() - k,
    {
        k = k + 1;
    }
    k
}

/// The pieces of `v` between occurrences of `sep`, each trimmed.
fn trimmed_pieces(v: &[char], sep: char) -> (r: Vec<String>)
    ensures
        strings_view(r@) == trim_all(split_on(v@, sep)),
{
    let pieces = split_chars(v, sep);
    let mut r: Vec<String> = Vec::new();
    let mut i: usize = 0;
    while i < pieces.len()
        invariant
            i <= pieces@.len(),
            pieces_view(pieces@) == split_on(v@, sep),
            r@.len() == i,
            forall|k: int| 0 <= k < i ==> #[trigger] r@[k]@ == trim(pieces@[k]@),
        decreases pieces.len() - i,
    {
        let p = &pieces[i];
        let (a, b) = trim_bounds(p.as_slice(), 0, p.len());
        assert(p@.subrange(0, p@.len() as int) =~= p@);
        r.push(string_of(p.as_slice(), a, b));
        i = i + 1;
    }
    assert(strings_view(r@) =~= trim_all(split_on(v@, sep)));
    r
}

fn is_word_char(c: char) -> (r: bool)
    ensures
        r == is_word(c),
{
    if (c as u32) < 128 {
        is_digit_char(c) || ('a' <= c && c <= 'z') || ('A' <= c && c <= 'Z') || c == '_'
    } else {
        alphanumeric(c)
    }
}

impl ChangeItem {
    /// Parses one (trimmed) line as an item, by [`item_line`].
    pub fn parse_item(s: &str) -> (r: Result<Option<ChangeItem>, ChgError>)
        ensures
            match r {
                Ok(None) => item_line(s@) == Ok::<Option<ItemV>, ChgErrorV>(None),
                Ok(Some(i)) => item_line(s@) == Ok::<Option<ItemV>, ChgErrorV>(Some(i@)),
                Err(e) => item_line(s@) == Err::<Option<ItemV>, ChgErrorV>(e@),
            },
    {
        let v = chars_of(s);
        if !(v.len() >= 2 && (v[0] == '-' || v[0] == '*') && v[1] == ' ') {
            return Ok(None);
        }
        let b = vec_of(v.as_slice(), 2, v.len());
        let l = match last_at(b.as_slice(), '/', 0, b.len()) {
            None => {
                return Err(ChgError::InvalidItem(string_from(v.as_slice())));
            },
            Some(l) => l,
        };
        let colon = if b.len() > 0 && is_word_char(b[0]) && l >= 1 {
            first_at(b.as_slice(), ':', 1, l)
        } else {
            None
        };
        let (refs, p) = match colon {
            Some(c) => (trimmed_pieces(vec_of(b.as_slice(), 0, c).as_slice(), ','), c + 1),
            None => (Vec::new(), 0),
        };
        let q = space_run_end_at(b.as_slice(), p);
        let close = if q < b.len() && b[q] == '[' {
            let r = word_run_end_at(b.as_slice(), q + 1);
            let hi = if r < l {
                r
            } else {
                l
            };
            if q + 2 <= hi {
                last_at(b.as_slice(), ']', q + 2, hi)
            } else {
                None
            }
        } else {
            None
        };
        let (component, start) = match close {
            Some(e) => (string_of(b.as_slice(), q + 1, e), e + 1),
            None => (String::new(), q),
        };
        assert(start <= l) by {
            if close is None && q > l {
                assert(is_space(b@[l as int]));
            }
        }
        let (ta, tb) = trim_bounds(b.as_slice(), start, l);
        let text = string_of(b.as_slice(), ta, tb);
        let authors = trimmed_pieces(vec_of(b.as_slice(), l + 1, b.len()).as_slice(), ',');
        let item = ChangeItem { refs, change_type: ChangeType::Other, component, text, authors };
        proof {
            assert(strings_view(Seq::<String>::empty()) =~= Seq::<Seq<char>>::empty());
        }
        Ok(Some(item))
    }
}

/// Where the line-oriented machine stands.
#[derive(Clone, Copy, Debug, PartialEq, Eq, Structural)]
pub enum ParserState {
    Prolog,
    Section,
    Epilog,
}

/// The lines of `ps` that are not empty.
pub open spec fn nonblank(ps: Seq<Seq<char>>) -> Seq<Seq<char>>
    decreases ps.len(),
{
    if ps.len() == 0 {
        Seq::empty()
    } else {
        let r = nonblank(ps.drop_last());
        if ps.last().len() == 0 {
            r
        } else {
            r.push(ps.last())
        }
    }
}

/// The lines of a document that the machine reads: each trimmed, blank ones left out.
pub open spec fn content_lines(text: Seq<char>) -> Seq<Seq<char>> {
    nonblank(trim_all(split_on(text, '\n')))
}

/// A line that opens a section: `## ` then the header text.
pub open spec fn is_section_line(line: Seq<char>) -> bool {
    line.len() >= 3 && line[0] == '#' && line[1] == '#' && line[2] == ' '
}

/// One line read by the machine `Prolog -> Section -> Epilog`.
pub open spec fn parse_step(b: BuilderV, st: ParserState, line: Seq<char>) -> Result<
    (BuilderV, ParserState),
    ChgErrorV,
> {
    if st != ParserState::Epilog && is_section_line(line) {
        match section_header(line.subrange(3, line.len() as int)) {
            Err(e) => Err(e),
            Ok(h) => Ok((open_section(b, h), ParserState::Section)),
        }
    } else if st == ParserState::Section {
        match item_line(line) {
            Err(e) => Err(e),
            Ok(None) => Ok((add_note(b, line), ParserState::Epilog)),
            Ok(Some(i)) => Ok((add_item(b, i), ParserState::Section)),
        }
    } else {
        Ok((add_note(b, line), st))
    }
}

pub open spec fn parse_lines(lines: Seq<Seq<char>>) -> Result<(BuilderV, ParserState), ChgErrorV>
    decreases lines.len(),
{
    if lines.len() == 0 {
        Ok((empty_builder(), ParserState::Prolog))
    } else {
        match parse_lines(lines.drop_last()) {
            Err(e) => Err(e),
            Ok((b, st)) => parse_step(b, st, lines.last()),
        }
    }
}

/// The changelog that a markdown document describes, or the first error in it.
pub open spec fn markdown(text: Seq<char>) -> Result<ChangeLogV, ChgErrorV> {
    match parse_lines(content_lines(text)) {
        Err(e) => Err(e),
        Ok((b, _)) => Ok(built(b)),
    }
}

proof fn lemma_parse_err_extends(xs: Seq<Seq<char>>, ys: Seq<Seq<char>>, e: ChgErrorV)
    requires
        parse_lines(xs) == Err::<(BuilderV, ParserState), ChgErrorV>(e),
    ensures
        parse_lines(xs + ys) == Err::<(BuilderV, ParserState), ChgErrorV>(e),
    decreases ys.len(),
{
    if ys.len() == 0 {
        assert(xs + ys =~= xs);
    } else {
        lemma_parse_err_extends(xs, ys.drop_last(), e);
        assert((xs + ys).drop_last() =~= xs + ys.drop_last());
    }
}

pub(crate) proof fn lemma_nonblank_concat(a: Seq<Seq<char>>, b: Seq<Seq<char>>)
    ensures
        nonblank(a + b) == nonblank(a) + nonblank(b),
    decreases b.len(),
{
    if b.len() == 0 {
        assert(a + b =~= a);
        assert(nonblank(a) + nonblank(b) =~= nonblank(a));
    } else {
        lemma_nonblank_concat(a, b.drop_last());
        assert((a + b).drop_last() =~= a + b.drop_last());
        if b.last().len() == 0 {
        } else {
            assert(nonblank(a) + nonblank(b.drop_last()).push(b.last()) =~= (nonblank(a)
                + nonblank(b.drop_last())).push(b.last()));
        }
    }
}

impl ChangeLogBuilder {
    /// Reads a markdown document into a new builder, by [`parse_lines`].
    pub fn import(text: &str, config: ChangeLogConfig) -> (r: Result<Self, ChgError>)
        ensures
            match parse_lines(content_lines(text@)) {
                Err(e) => r matches Err(x) && x@ == e,
                Ok((b, _)) => r matches Ok(x) && x@ == b,
            },
    {
        let mut this = Self::new(config);
        let chars = chars_of(text);
        let pieces = split_chars(chars.as_slice(), '\n');
        let ghost ps = pieces_view(pieces@);
        let hash_sep = chars_of("## ");
        let mut state = ParserState::Prolog;
        let mut i: usize = 0;
        while i < pieces.len()
            invariant
                i <= pieces@.len(),
                ps == pieces_view(pieces@),
                ps == split_on(text@, '\n'),
                parse_lines(nonblank(trim_all(ps.take(i as int)))) == Ok::<
                    (BuilderV, ParserState),
                    ChgErrorV,
                >((this@, state)),
            decreases pieces.len() - i,
        {
            let line = trimmed(&pieces[i]);
            let ghost before = nonblank(trim_all(ps.take(i as int)));
            assert(trim_all(ps.take(i + 1)) =~= trim_all(ps.take(i as int)).push(line@));
            assert(trim_all(ps.take(i + 1)).drop_last() =~= trim_all(ps.take(i as int)));
            if line.len() == 0 {
                i = i + 1;
                continue;
            }
            let ghost cur = nonblank(trim_all(ps.take(i + 1)));
            assert(cur.drop_last() =~= before);
            assert(cur.last() == line@);
            let text_line = string_from(line.as_slice());
            let is_header = line.len() >= 3 && line[0] == '#' && line[1] == '#' && line[2] == ' ';
            let mut handled = false;
            if state != ParserState::Epilog && is_header {
                let header_text = string_of(line.as_slice(), 3, line.len());
                match ChangesetHeader::parse_section_header(header_text.as_str()) {
                    Err(e) => {
                        proof {
                            self::lemma_abort(ps, i as int, e@);
                        }
                        return Err(e);
                    },
                    Ok(h) => {
                        this.section(h);
                        state = ParserState::Section;
                    },
                }
                handled = true;
            }
            if !handled {
                if state == ParserState::Section {
                    match ChangeItem::parse_item(text_line.as_str()) {
                        Err(e) => {
                            proof {
                                self::lemma_abort(ps, i as int, e@);
                            }
                            return Err(e);
                        },
                        Ok(None) => {
                            let _ = this.note(text_line.as_str());
                            state = ParserState::Epilog;
                        },
                        Ok(Some(item)) => {
                            let _ = this.item(item);
                        },
                    }
                } else {
                    let _ = this.note(text_line.as_str());
                }
            }
            i = i + 1;
        }
        assert(ps.take(pieces@.len() as int) =~= ps);
        Ok(this)
    }
}

proof fn lemma_abort(ps: Seq<Seq<char>>, i: int, e: ChgErrorV)
    requires
        0 <= i < ps.len(),
        parse_lines(nonblank(trim_all(ps.take(i + 1)))) == Err::<(BuilderV, ParserState), ChgErrorV>(e),
    ensures
        parse_lines(nonblank(trim_all(ps))) == Err::<(BuilderV, ParserState), ChgErrorV>(e),
{
    let a = ps.take(i + 1);
    let b = ps.skip(i + 1);
    assert(ps =~= a + b);
    assert(trim_all(ps) =~= trim_all(a) + trim_all(b));
    lemma_nonblank_concat(trim_all(a), trim_all(b));
    lemma_parse_err_extends(nonblank(trim_all(a)), nonblank(trim_all(b)), e);
}

/// A markdown document read as a changelog: its embedded configuration must be
/// framed properly, then its lines are read by [`markdown`].
pub open spec fn markdown_document(text: Seq<char>) -> Result<ChangeLogV, ChgErrorV> {
    match embedded_config(text) {
        Err(e) => Err(e),
        Ok(_) => markdown(text),
    }
}

impl ChangeLog {
    /// Reads a markdown document, by [`markdown_document`]. The changelog gets
    /// the default configuration; reading the embedded one into a value is the
    /// caller's part (see [`ChangeLogConfig::embedded_text`]).
    pub fn import_markdown(text: &str) -> (r: Result<ChangeLog, ChgError>)
        ensures
            match markdown_document(text@) {
                Err(e) => r matches Err(x) && x@ == e,
                Ok(c) => r matches Ok(x) && x@ == c && x.meta@.len() == 0,
            },
    {
        let _ = ChangeLogConfig::embedded_text(text)?;
        let builder = ChangeLogBuilder::import(text, ChangeLogConfig::default())?;
        Ok(builder.build())
    }
}

} // verus!
