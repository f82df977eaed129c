//! Configuration carried by a changelog, and the framing of its embedded form.

use vstd::prelude::*;
use crate::error::{ChgError, ChgErrorV};
use crate::text::{chars_of, has_at, occurs_at, string_of, trim_bounds, trim_end, trim_start};

verus! {

/// Settings of the version-control side.
#[derive(Debug)]
pub struct GitConfig {
    pub tag_version_pattern: String,
}

/// Link and key templates of issues and pull requests.
#[derive(Debug)]
pub struct KeysConfig {
    pub issue_link: String,
    pub issue_key: String,
    pub pr_link: String,
    pub pr_key: String,
}

/// Configuration of a changelog; its serialized form is read and written by the
/// caller, this library only frames it.
#[derive(Debug)]
pub struct ChangeLogConfig {
    pub git: GitConfig,
    pub keys: KeysConfig,
}

impl Default for ChangeLogConfig {
    fn default() -> (r: ChangeLogConfig)
        ensures
            r.git.tag_version_pattern@.len() == 0,
            r.keys.issue_link@.len() == 0,
            r.keys.issue_key@.len() == 0,
            r.keys.pr_link@.len() == 0,
            r.keys.pr_key@.len() == 0,
    {
        ChangeLogConfig {
            git: GitConfig { tag_version_pattern: String::new() },
            keys: KeysConfig {
                issue_link: String::new(),
                issue_key: String::new(),
                pr_link: String::new(),
                pr_key: String::new(),
            },
        }
    }
}

impl Clone for GitConfig {
    fn clone(&self) -> (r: Self)
        ensures
            r.tag_version_pattern@ == self.tag_version_pattern@,
    {
        GitConfig { tag_version_pattern: self.tag_version_pattern.clone() }
    }
}

impl Clone for KeysConfig {
    fn clone(&self) -> (r: Self)
        ensures
            r.issue_link@ == self.issue_link@,
            r.issue_key@ == self.issue_key@,
            r.pr_link@ == self.pr_link@,
            r.pr_key@ == self.pr_key@,
    {
        KeysConfig {
            issue_link: self.issue_link.clone(),
            issue_key: self.issue_key.clone(),
            pr_link: self.pr_link.clone(),
            pr_key: self.pr_key.clone(),
        }
    }
}

impl Clone for ChangeLogConfig {
    fn clone(&self) -> (r: Self)
        ensures
            r.git.tag_version_pattern@ == self.git.tag_version_pattern@,
    {
        ChangeLogConfig { git: self.git.clone(), keys: self.keys.clone() }
    }
}

/// Line that opens the embedded configuration.
pub const CHANGELOG_CONFIG_START: &'static str = "<!-- CHANGELOG-CONFIG";

/// Marker that closes the embedded configuration.
pub const CHANGELOG_CONFIG_END: &'static str = "-->";

/// First index at or after `k` where `needle` occurs in `hay`, or -1.
pub open spec fn find_from(hay: Seq<char>, needle: Seq<char>, k: int) -> int
    decreases hay.len() + 1 - k,
{
    if k < 0 || k > hay.len() || k + needle.len() > hay.len() {
        -1
    } else if occurs_at(hay, needle, k) {
        k
    } else {
        find_from(hay, needle, k + 1)
    }
}

/// The embedded configuration of a document: nothing without the start marker;
/// an error when the end marker does not follow it; else the text between the
/// two markers, trimmed.
pub open spec fn embedded_config(text: Seq<char>) -> Result<Option<Seq<char>>, ChgErrorV> {
    let start = CHANGELOG_CONFIG_START@;
    let k = find_from(text, start, 0);
    if k < 0 {
        Ok(None)
    } else {
        let rest = text.subrange(k + start.len(), text.len() as int);
        let e = find_from(rest, CHANGELOG_CONFIG_END@, 0);
        if e < 0 {
            Err(ChgErrorV::ConfigReadError("missing end delimiter for embedded config"@))
        } else {
            Ok(Some(trim_end(trim_start(rest.subrange(0, e)))))
        }
    }
}

fn find_at(hay: &[char], needle: &[char]) -> (r: Option<usize>)
    ensures
        match r {
            None => find_from(hay@, needle@, 0) == -1,
            Some(k) => find_from(hay@, needle@, 0) == k && k + needle@.len() <= hay@.len(),
        },
{
    if needle.len() > hay.len() {
        return None;
    }
    if needle.len() == 0 {
        assert(hay@.subrange(0, 0) =~= needle@);
        return Some(0);
    }
    let mut k: usize = 0;
    while k <= hay.len() - needle.len()
        invariant
            1 <= needle@.len() <= hay@.len(),
            k <= hay@.len() - needle@.len() + 1,
            find_from(hay@, needle@, 0) == find_from(hay@, needle@, k as int),
        decreases hay.len() - k,
    {
        if has_at(hay, k, needle) {
            return Some(k);
        }
        k = k + 1;
    }
    None
}

impl ChangeLogConfig {
    /// The text of the configuration embedded in a document, by [`embedded_config`];
    /// reading it into a value is the caller's part.
    pub fn embedded_text(text: &str) -> (r: Result<Option<String>, ChgError>)
        ensures
            match embedded_config(text@) {
                Ok(None) => r matches Ok(None),
                Ok(Some(c)) => r matches Ok(Some(x)) && x@ == c,
                Err(e) => r matches Err(x) && x@ == e,
            },
    {
        let t = chars_of(text);
        let start = chars_of(CHANGELOG_CONFIG_START);
        let end = chars_of(CHANGELOG_CONFIG_END);
        match find_at(t.as_slice(), start.as_slice()) {
            None => Ok(None),
            Some(k) => {
                assert(k + start@.len() <= t@.len());
                assert(k + start.len() <= t.len());
                let from = k + start.len();
                let rest = crate::text::vec_of(t.as_slice(), from, t.len());
                match find_at(rest.as_slice(), end.as_slice()) {
                    None => Err(
                        ChgError::ConfigReadError(
                            "missing end delimiter for embedded config".to_string(),
                        ),
                    ),
                    Some(e) => {
                        let (a, b) = trim_bounds(rest.as_slice(), 0, e);
                        Ok(Some(string_of(rest.as_slice(), a, b)))
                    },
                }
            },
        }
    }

    /// A serialized configuration framed for embedding in a document.
    pub fn frame_embedded(config_text: &str) -> (r: String)
        ensures
            r@ == CHANGELOG_CONFIG_START@ + seq!['\n'] + config_text@ + CHANGELOG_CONFIG_END@,
    {
        let mut r = CHANGELOG_CONFIG_START.to_string();
        crate::text::push_char(&mut r, '\n');
        r.append(config_text);
        r.append(CHANGELOG_CONFIG_END);
        r
    }
}

} // verus!
