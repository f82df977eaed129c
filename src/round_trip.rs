//! The markdown form reads back: what the renderer writes, the parser reads as
//! the same model.

use vstd::prelude::*;
use crate::builder::{BuilderV, add_item, add_note, built, close_section, empty_builder, open_section};
use crate::changelog::{ChangeLogV, ChangeSetV, ChangeType, Date, HeaderV, ItemV, valid_version};
use crate::config::embedded_config;
use crate::error::ChgErrorV;
use crate::imports::from_changelog::{
    ParserState, markdown_document, component_close, content_lines, date_suffix, digits_start, digits_value,
    first_in, is_item_line, lemma_nonblank_concat, markdown, nonblank, parse_lines, parse_step,
    is_section_line, is_word, item_body, spaces_unified, words, item_line, last_in, refs_colon, release_of,
    section_header, space_run_end, trim_all, word_run_end, ymd_result, yanked_token,
};
use crate::render::{
    changeset_text, changesets_text, date_text, header_text, item_text, items_text, join,
    markdown_text, padded, strip_newline, year_number,
};
use crate::text::{
    ascii_lower, contains_ignore_ascii_case, digit_char, eq_ignore_ascii_case, is_digit, is_space,
    split_on, trim, trim_end, trim_start,
};

verus! {

pub open spec fn pow10(w: nat) -> nat
    decreases w,
{
    if w == 0 {
        1
    } else {
        10 * pow10((w - 1) as nat)
    }
}

/// No white space in `s`.
pub open spec fn solid(s: Seq<char>) -> bool {
    forall|k: int| 0 <= k < s.len() ==> !is_space(#[trigger] s[k])
}

/// A header the renderer writes so that the parser reads it back.
pub open spec fn valid_header(h: HeaderV) -> bool {
    match h {
        HeaderV::Unreleased => true,
        HeaderV::Release { version, timestamp, .. } => valid_version(version) && solid(version)
            && timestamp.wf(),
    }
}

/// The header as the parser reads it: markdown keeps no tag.
pub open spec fn without_tag(h: HeaderV) -> HeaderV {
    match h {
        HeaderV::Unreleased => HeaderV::Unreleased,
        HeaderV::Release { version, timestamp, yanked, .. } => HeaderV::Release {
            version,
            tag: Seq::empty(),
            timestamp,
            yanked,
        },
    }
}

proof fn lemma_padded(n: nat, w: nat)
    requires
        n < pow10(w),
    ensures
        padded(n, w).len() == w,
        forall|k: int| 0 <= k < w ==> is_digit(#[trigger] padded(n, w)[k]),
        digits_value(padded(n, w)) == n,
    decreases w,
{
    if w > 0 {
        let p = padded((n / 10) as nat, (w - 1) as nat);
        assert(n / 10 < pow10((w - 1) as nat)) by (nonlinear_arith)
            requires
                n < pow10(w),
                pow10(w) == 10 * pow10((w - 1) as nat),
        ;
        lemma_padded((n / 10) as nat, (w - 1) as nat);
        let c = digit_char(n % 10);
        assert(padded(n, w) == p.push(c));
        assert(p.push(c).drop_last() =~= p);
        assert((c as nat) - ('0' as nat) == n % 10);
        assert(n == (n / 10) * 10 + n % 10) by (nonlinear_arith);
    }
}

proof fn lemma_split_solid(a: Seq<char>, sep: char)
    requires
        forall|k: int| 0 <= k < a.len() ==> a[k] != sep,
    ensures
        split_on(a, sep) == seq![a],
    decreases a.len(),
{
    if a.len() > 0 {
        let d = a.drop_last();
        lemma_split_solid(d, sep);
        assert(d.push(a.last()) =~= a);
        assert(seq![d].update(0, d.push(a.last())) =~= seq![a]);
    } else {
        assert(a =~= Seq::<char>::empty());
    }
}

proof fn lemma_split_concat(a: Seq<char>, sep: char, b: Seq<char>)
    ensures
        split_on(a.push(sep) + b, sep) == split_on(a, sep) + split_on(b, sep),
    decreases b.len(),
{
    if b.len() == 0 {
        assert(a.push(sep) + b =~= a.push(sep));
        assert(a.push(sep).drop_last() =~= a);
        assert(split_on(b, sep) =~= seq![Seq::<char>::empty()]);
        assert(split_on(a, sep).push(Seq::empty()) =~= split_on(a, sep) + seq![Seq::<char>::empty()]);
    } else {
        lemma_split_concat(a, sep, b.drop_last());
        crate::text::lemma_split_on_nonempty(b.drop_last(), sep);
        let x = a.push(sep) + b;
        assert(x.drop_last() =~= a.push(sep) + b.drop_last());
        assert(x.last() == b.last());
        let l = split_on(a, sep);
        let r = split_on(b.drop_last(), sep);
        if b.last() == sep {
            assert((l + r).push(Seq::empty()) =~= l + r.push(Seq::empty()));
        } else {
            assert((l + r).update((l + r).len() - 1, (l + r).last().push(b.last())) =~= l + r.update(
                r.len() - 1,
                r.last().push(b.last()),
            ));
        }
    }
}

proof fn lemma_trim_fixed(s: Seq<char>)
    requires
        s.len() > 0,
        !is_space(s[0]),
        !is_space(s.last()),
    ensures
        trim(s) == s,
{
}

proof fn lemma_date_text(d: Date)
    requires
        d.wf(),
    ensures
        date_text(d).len() == 10,
        solid(date_text(d)),
        date_suffix(date_text(d)) == Some((0int, 4int, 7int)),
        ymd_result(date_text(d), 4, 7) == Ok::<Date, Seq<char>>(d),
{
    reveal_with_fuel(pow10, 5);
    let y = year_number(d.year);
    lemma_padded(y, 4);
    lemma_padded(d.month as nat, 2);
    lemma_padded(d.day as nat, 2);
    let t = date_text(d);
    let py = padded(y, 4);
    let pm = padded(d.month as nat, 2);
    let pd = padded(d.day as nat, 2);
    assert(t =~= py + seq!['-'] + pm + seq!['-'] + pd);
    assert(t.subrange(0, 4) =~= py);
    assert(t.subrange(5, 7) =~= pm);
    assert(t.subrange(8, 10) =~= pd);
    assert forall|k: int| 0 <= k < t.len() implies !is_space(#[trigger] t[k]) by {
        if k < 4 {
            assert(t[k] == py[k]);
        } else if k == 4 || k == 7 {
        } else if k < 7 {
            assert(t[k] == pm[k - 5]);
        } else {
            assert(t[k] == pd[k - 8]);
        }
    }
    assert(is_digit(t[9]) && is_digit(t[8]) && t[7] == '-');
    assert(digits_start(t, 8) == 8);
    assert(digits_start(t, 9) == 8);
    assert(digits_start(t, 10) == 8);
    assert(is_digit(t[6]) && is_digit(t[5]) && t[4] == '-');
    assert(digits_start(t, 5) == 5);
    assert(digits_start(t, 6) == 5);
    assert(digits_start(t, 7) == 5);
    assert(is_digit(t[0]) && is_digit(t[1]) && is_digit(t[2]) && is_digit(t[3]));
    assert(digits_start(t, 0) == 0);
    assert(digits_start(t, 1) == 0);
    assert(digits_start(t, 2) == 0);
    assert(digits_start(t, 3) == 0);
    assert(digits_start(t, 4) == 0);
}

#[verifier::rlimit(50)]
proof fn lemma_release_round_trip(version: Seq<char>, tag: Seq<char>, timestamp: Date, yanked: bool)
    requires
        valid_header(HeaderV::Release { version, tag, timestamp, yanked }),
    ensures
        ({
            let h = HeaderV::Release { version, tag, timestamp, yanked };
            let line = header_text(h);
            section_header(line.subrange(3, line.len() as int)) == Ok::<HeaderV, ChgErrorV>(
                without_tag(h),
            )
        }),
{
    let h = HeaderV::Release { version, tag, timestamp, yanked };
    let line = header_text(h);
    reveal_strlit("## ");
    reveal_strlit("unreleased");
            reveal_strlit(" - ");
            reveal_strlit(" [YANKED]");
            reveal_strlit("[YANKED]");
            reveal_strlit("YANKED");
            lemma_date_text(timestamp);
            let date = date_text(timestamp);
            let tail: Seq<char> = if yanked { " [YANKED]"@ } else { Seq::empty() };
            let s = line.subrange(3, line.len() as int);
            assert(s =~= version + " - "@ + date + tail);
            assert(s[0] == version[0]);
            assert(!is_space(s.last())) by {
                if yanked {
                    assert(s.last() == ']');
                } else {
                    assert(s.last() == date[9]);
                }
            }
            lemma_trim_fixed(s);
            assert(spaces_unified(s) =~= s) by {
                assert forall|k: int| 0 <= k < s.len() implies (if is_space(s[k]) {
                    ' '
                } else {
                    s[k]
                }) == s[k] by {
                    let a = version.len() as int;
                    if k < a {
                        assert(s[k] == version[k]);
                    } else if k < a + 3 {
                    } else if k < a + 13 {
                        assert(s[k] == date[k - a - 3]);
                    } else {
                        assert(s[k] == tail[k - a - 13]);
                    }
                }
            }
            assert(!eq_ignore_ascii_case(s, "unreleased"@)) by {
                assert(ascii_lower(s[0]) != ascii_lower("unreleased"@[0]));
            }
            assert forall|k: int| 0 <= k < version.len() implies version[k] != ' ' by {
                assert(!is_space(version[k]));
            }
            assert forall|k: int| 0 <= k < date.len() implies date[k] != ' ' by {
                assert(!is_space(date[k]));
            }
            lemma_split_solid(version, ' ');
            lemma_split_solid(seq!['-'], ' ');
            lemma_split_solid(date, ' ');
            let rest = seq!['-'].push(' ') + date;
            lemma_split_concat(seq!['-'], ' ', date);
            if yanked {
                let y = "[YANKED]"@;
                lemma_split_solid(y, ' ');
                assert(s =~= version.push(' ') + (seq!['-'].push(' ') + date.push(' ') + y));
                lemma_split_concat(date, ' ', y);
                assert(seq!['-'].push(' ') + date.push(' ') + y =~= seq!['-'].push(' ') + (date.push(' ') + y));
                lemma_split_concat(seq!['-'], ' ', date.push(' ') + y);
                lemma_split_concat(version, ' ', seq!['-'].push(' ') + date.push(' ') + y);
                let t = split_on(s, ' ');
                assert(t =~= seq![version, seq!['-'], date, y]);
                lemma_nonblank_all(t);
                assert(words(s) == t);
                assert(trim(seq!['-']) == seq!['-']);
                assert(trim(date) == date) by {
                    lemma_trim_fixed(date);
                }
                assert(y.subrange(1, 7) =~= "YANKED"@);
                assert(eq_ignore_ascii_case(y.subrange(1int, 1 + ("YANKED"@).len() as int), "YANKED"@));
                assert(contains_ignore_ascii_case(y, "YANKED"@));
                assert(contains_ignore_ascii_case(t[3], "YANKED"@));
                assert(yanked_token(t, 3));
                assert(date.subrange(0, date.len() as int) =~= date);
            } else {
                assert(s =~= version.push(' ') + rest);
                lemma_split_concat(version, ' ', rest);
                let t = split_on(s, ' ');
                assert(t =~= seq![version, seq!['-'], date]);
                lemma_nonblank_all(t);
                assert(words(s) == t);
                assert(trim(seq!['-']) == seq!['-']);
                assert(trim(date) == date) by {
                    lemma_trim_fixed(date);
                }
                assert(!yanked_token(t, 3));
                assert(date.subrange(0, date.len() as int) =~= date);
            }
        
}

/// A header line reads back as the header it was written from, but for the tag.
pub proof fn lemma_header_round_trip(h: HeaderV)
    requires
        valid_header(h),
    ensures
        is_section_line(header_text(h)),
        section_header(header_text(h).subrange(3, header_text(h).len() as int)) == Ok::<
            HeaderV,
            ChgErrorV,
        >(without_tag(h)),
{
    reveal_strlit("## Unreleased");
    reveal_strlit("## ");
    reveal_strlit("unreleased");
    let line = header_text(h);
    match h {
        HeaderV::Unreleased => {
            let s = line.subrange(3, line.len() as int);
            assert(s =~= "Unreleased"@) by {
                reveal_strlit("Unreleased");
            }
            reveal_strlit("Unreleased");
            assert(trim(s) == s);
            assert(eq_ignore_ascii_case(s, "unreleased"@));
        },
        HeaderV::Release { version, tag, timestamp, yanked } => {
            lemma_release_round_trip(version, tag, timestamp, yanked);
        },
    }
}

/// A reference token or author name that reads back: non-empty, without white
/// space at either end, and without a comma, a newline or `c` (a colon in
/// references, a slash in authors).
pub open spec fn clean_token(t: Seq<char>, c: char) -> bool {
    &&& t.len() > 0
    &&& !is_space(t[0])
    &&& !is_space(t.last())
    &&& forall|k: int|
        0 <= k < t.len() ==> (#[trigger] t[k]) != ',' && t[k] != c && t[k] != '\n'
}

/// An item the renderer writes so that the parser reads it back: clean tokens
/// (references led by a word character), a component without white space, a
/// trimmed non-empty text that cannot be taken for a component, nor for
/// references when neither precedes it, and at least one author.
pub open spec fn valid_item(i: ItemV) -> bool {
    &&& i.change_type == ChangeType::Other
    &&& forall|k: int| 0 <= k < i.refs.len() ==> clean_token(#[trigger] i.refs[k], ':')
    &&& i.refs.len() > 0 ==> is_word(i.refs[0][0])
    &&& solid(i.component)
    &&& i.text.len() > 0
    &&& forall|k: int| 0 <= k < i.text.len() ==> (#[trigger] i.text[k]) != '\n'
    &&& !is_space(i.text[0])
    &&& !is_space(i.text.last())
    &&& i.component.len() == 0 ==> i.text[0] != '['
    &&& (i.refs.len() == 0 && i.component.len() == 0 && is_word(i.text[0])) ==> forall|k: int|
        0 <= k < i.text.len() ==> (#[trigger] i.text[k]) != ':'
    &&& i.authors.len() > 0
    &&& forall|k: int| 0 <= k < i.authors.len() ==> clean_token(#[trigger] i.authors[k], '/')
}

proof fn lemma_last_in_at(s: Seq<char>, c: char, lo: int, hi: int, k: int)
    requires
        lo <= k < hi <= s.len(),
        s[k] == c,
        forall|j: int| k < j < hi ==> s[j] != c,
    ensures
        last_in(s, c, lo, hi) == k,
    decreases hi - lo,
{
    if hi - 1 != k {
        lemma_last_in_at(s, c, lo, hi - 1, k);
    }
}

proof fn lemma_first_in_at(s: Seq<char>, c: char, lo: int, hi: int, k: int)
    requires
        0 <= lo <= k < hi <= s.len(),
        s[k] == c,
        forall|j: int| lo <= j < k ==> s[j] != c,
    ensures
        first_in(s, c, lo, hi) == k,
    decreases k - lo,
{
    if lo != k {
        lemma_first_in_at(s, c, lo + 1, hi, k);
    }
}

proof fn lemma_first_in_none(s: Seq<char>, c: char, lo: int, hi: int)
    requires
        0 <= lo,
        hi <= s.len(),
        forall|j: int| lo <= j < hi ==> s[j] != c,
    ensures
        first_in(s, c, lo, hi) == -1,
    decreases hi - lo,
{
    if lo < hi {
        lemma_first_in_none(s, c, lo + 1, hi);
    }
}

proof fn lemma_word_run_end(s: Seq<char>, p: int, k: int)
    requires
        0 <= p <= k < s.len(),
        forall|j: int| p <= j < k ==> !is_space(s[j]),
        is_space(s[k]),
    ensures
        word_run_end(s, p) == k,
    decreases k - p,
{
    if p < k {
        lemma_word_run_end(s, p + 1, k);
    }
}

/// What `join` holds: no character `ch` that neither the pieces nor the separator hold.
proof fn lemma_join_avoids(ss: Seq<Seq<char>>, sep: Seq<char>, ch: char)
    requires
        forall|k: int, j: int| 0 <= k < ss.len() && 0 <= j < ss[k].len() ==> (#[trigger] ss[k][j]) != ch,
        forall|j: int| 0 <= j < sep.len() ==> sep[j] != ch,
    ensures
        forall|j: int| 0 <= j < join(ss, sep).len() ==> (#[trigger] join(ss, sep)[j]) != ch,
    decreases ss.len(),
{
    if ss.len() > 1 {
        let pre = ss.drop_last();
        assert forall|k: int, j: int| 0 <= k < pre.len() && 0 <= j < pre[k].len() implies (
        #[trigger] pre[k][j]) != ch by {
            assert(pre[k] == ss[k]);
        }
        lemma_join_avoids(pre, sep, ch);
        let a = join(pre, sep);
        let x = a + sep + ss.last();
        assert forall|j: int| 0 <= j < x.len() implies x[j] != ch by {
            if j < a.len() {
                assert(x[j] == a[j]);
            } else if j < a.len() + sep.len() {
                assert(x[j] == sep[j - a.len()]);
            } else {
                assert(x[j] == ss[ss.len() - 1][j - a.len() - sep.len()]);
            }
        }
    } else if ss.len() == 1 {
        assert(join(ss, sep) == ss[0]);
        assert forall|j: int| 0 <= j < ss[0].len() implies ss[0][j] != ch by {
            assert(ss[0][j] != ch);
        }
    }
}

proof fn lemma_join_first(ss: Seq<Seq<char>>, sep: Seq<char>)
    requires
        ss.len() > 0,
        ss[0].len() > 0,
    ensures
        join(ss, sep).len() > 0,
        join(ss, sep)[0] == ss[0][0],
    decreases ss.len(),
{
    if ss.len() > 1 {
        let pre = ss.drop_last();
        assert(pre[0] == ss[0]);
        lemma_join_first(pre, sep);
    }
}

proof fn lemma_trim_spaced(p: Seq<char>, t: Seq<char>, q: Seq<char>)
    requires
        forall|j: int| 0 <= j < p.len() ==> is_space(#[trigger] p[j]),
        forall|j: int| 0 <= j < q.len() ==> is_space(#[trigger] q[j]),
        t.len() > 0,
        !is_space(t[0]),
        !is_space(t.last()),
    ensures
        trim(p + t + q) == t,
    decreases p.len() + q.len(),
{
    if p.len() > 0 {
        assert((p + t + q).drop_first() =~= p.drop_first() + t + q);
        assert((p + t + q)[0] == p[0]);
        lemma_trim_spaced(p.drop_first(), t, q);
        assert(trim_start(p + t + q) == trim_start(p.drop_first() + t + q));
    } else if q.len() > 0 {
        assert(p + t + q =~= t + q);
        let x = t + q;
        assert(trim_start(x) == x);
        assert(x.drop_last() =~= t + q.drop_last());
        assert(x.last() == q.last());
        lemma_trim_spaced(p, t, q.drop_last());
        assert(p + t + q.drop_last() =~= t + q.drop_last());
        assert(trim_start(t + q.drop_last()) == t + q.drop_last());
    } else {
        assert(p + t + q =~= t);
    }
}

/// Splitting joined tokens at commas and trimming gives the tokens back.
proof fn lemma_split_join(p: Seq<char>, ts: Seq<Seq<char>>, c: char)
    requires
        ts.len() > 0,
        forall|k: int| 0 <= k < ts.len() ==> clean_token(#[trigger] ts[k], c),
        forall|j: int| 0 <= j < p.len() ==> is_space(#[trigger] p[j]),
    ensures
        trim_all(split_on(p + join(ts, ", "@), ',')) == ts,
    decreases ts.len(),
{
    reveal_strlit(", ");
    if ts.len() == 1 {
        let t = ts[0];
        assert(join(ts, ", "@) == t);
        assert forall|k: int| 0 <= k < (p + t).len() implies (p + t)[k] != ',' by {
            if k < p.len() {
                assert(is_space(p[k]));
            } else {
                assert((p + t)[k] == t[k - p.len()]);
            }
        }
        lemma_split_solid(p + t, ',');
        lemma_trim_spaced(p, t, Seq::empty());
        assert(p + t + Seq::<char>::empty() =~= p + t);
        assert(trim_all(seq![p + t]) =~= seq![t]);
        assert(seq![t] =~= ts);
    } else {
        let pre = ts.drop_last();
        let t = ts.last();
        assert(forall|k: int| 0 <= k < pre.len() ==> pre[k] == ts[k]);
        lemma_split_join(p, pre, c);
        let a = p + join(pre, ", "@);
        let sp = seq![' '] + t;
        assert(p + join(ts, ", "@) =~= a.push(',') + sp);
        lemma_split_concat(a, ',', sp);
        assert forall|k: int| 0 <= k < sp.len() implies sp[k] != ',' by {
            if k > 0 {
                assert(sp[k] == t[k - 1]);
            }
        }
        lemma_split_solid(sp, ',');
        lemma_trim_spaced(seq![' '], t, Seq::empty());
        assert(seq![' '] + t + Seq::<char>::empty() =~= sp);
        assert(trim_all(split_on(a, ',') + seq![sp]) =~= trim_all(split_on(a, ',')).push(trim(sp)));
        assert(pre.push(t) =~= ts);
    }
}

proof fn lemma_clean_tokens_avoid(ts: Seq<Seq<char>>, ch: char)
    requires
        forall|k: int| 0 <= k < ts.len() ==> clean_token(#[trigger] ts[k], ch),
        ch != ',' && ch != ' ',
    ensures
        forall|j: int| 0 <= j < join(ts, ", "@).len() ==> (#[trigger] join(ts, ", "@)[j]) != ch,
{
    reveal_strlit(", ");
    assert forall|k: int, j: int| 0 <= k < ts.len() && 0 <= j < ts[k].len() implies (
    #[trigger] ts[k][j]) != ch by {
        assert(clean_token(ts[k], ch));
    }
    assert(", "@[0] == ',' && ", "@[1] == ' ');
    lemma_join_avoids(ts, ", "@, ch);
}

pub open spec fn refs_part(i: ItemV) -> Seq<char> {
    if i.refs.len() > 0 {
        join(i.refs, ", "@) + ": "@
    } else {
        Seq::empty()
    }
}

pub open spec fn component_part(i: ItemV) -> Seq<char> {
    if i.component.len() > 0 {
        "["@ + i.component + "] "@
    } else {
        Seq::empty()
    }
}

/// The body of the line written for `i`, after `- `.
pub open spec fn body_of(i: ItemV) -> Seq<char> {
    refs_part(i) + component_part(i) + i.text + " / "@ + join(i.authors, ", "@)
}

/// Position of the slash before the authors in [`body_of`].
pub open spec fn slash_of(i: ItemV) -> int {
    (refs_part(i).len() + component_part(i).len() + i.text.len() + 1) as int
}

proof fn lemma_body_slash(i: ItemV)
    requires
        valid_item(i),
    ensures
        last_in(body_of(i), '/', 0, body_of(i).len() as int) == slash_of(i),
        body_of(i).subrange(slash_of(i) + 1, body_of(i).len() as int) =~= seq![' '] + join(
            i.authors,
            ", "@,
        ),
        forall|j: int| 0 <= j < i.text.len() ==> body_of(i)[refs_part(i).len() + component_part(i).len() + j] == i.text[j],
        body_of(i)[slash_of(i) - 1] == ' ',
{
    reveal_strlit(" / ");
    let b = body_of(i);
    let a = join(i.authors, ", "@);
    let l = slash_of(i);
    let pre = refs_part(i) + component_part(i) + i.text;
    assert(b =~= pre + " / "@ + a);
    assert(b[l] == '/');
    lemma_clean_tokens_avoid(i.authors, '/');
    assert forall|j: int| l < j < b.len() implies b[j] != '/' by {
        if j > l + 1 {
            assert(b[j] == a[j - l - 2]);
        }
    }
    lemma_last_in_at(b, '/', 0, b.len() as int, l);
    assert forall|j: int| 0 <= j < i.text.len() implies b[refs_part(i).len() + component_part(i).len() + j] == i.text[j] by {
        assert(pre[refs_part(i).len() + component_part(i).len() + j] == i.text[j]);
    }
}

proof fn lemma_body_refs(i: ItemV)
    requires
        valid_item(i),
    ensures
        i.refs.len() > 0 ==> refs_colon(body_of(i), slash_of(i)) == join(i.refs, ", "@).len()
            && trim_all(split_on(body_of(i).subrange(0, join(i.refs, ", "@).len() as int), ','))
            == i.refs && space_run_end(body_of(i), (join(i.refs, ", "@).len() + 1) as int)
            == refs_part(i).len(),
        i.refs.len() == 0 ==> refs_colon(body_of(i), slash_of(i)) == -1 && space_run_end(
            body_of(i),
            0,
        ) == 0,
{
    reveal_strlit(": ");
    reveal_strlit("[");
    reveal_strlit("] ");
    lemma_body_slash(i);
    let b = body_of(i);
    let l = slash_of(i);
    let r = refs_part(i).len() as int;
    let k = component_part(i).len() as int;
    let t = i.text.len() as int;
    assert(b[r + k] == i.text[0]);
    if k > 0 {
        assert(component_part(i)[0] == '[');
        assert(b[r] == '[');
    }
    if i.refs.len() > 0 {
        let jr = join(i.refs, ", "@);
        lemma_join_first(i.refs, ", "@);
        assert(b[0] == jr[0]);
        lemma_clean_tokens_avoid(i.refs, ':');
        assert(b[jr.len() as int] == ':');
        assert forall|j: int| 1 <= j < jr.len() implies b[j] != ':' by {
            assert(b[j] == jr[j]);
        }
        lemma_first_in_at(b, ':', 1, l, jr.len() as int);
        assert(b.subrange(0, jr.len() as int) =~= jr);
        lemma_split_join(Seq::empty(), i.refs, ':');
        assert(Seq::<char>::empty() + jr =~= jr);
        assert(b[r - 1] == ' ');
        assert(space_run_end(b, r) == r);
        assert(space_run_end(b, r - 1) == r);
    } else {
        if is_word(b[0]) && k == 0 {
            assert forall|j: int| 1 <= j < l implies b[j] != ':' by {
                if j < t {
                    assert(b[j] == i.text[j]);
                }
            }
            lemma_first_in_none(b, ':', 1, l);
        }
        assert(space_run_end(b, 0) == 0);
    }
}

proof fn lemma_body_component(i: ItemV)
    requires
        valid_item(i),
    ensures
        ({
            let b = body_of(i);
            let q = refs_part(i).len() as int;
            let k = component_part(i).len() as int;
            let l = slash_of(i);
            let e = component_close(b, q, l);
            &&& k > 0 ==> e == q + k - 2 && b.subrange(q + 1, e) == i.component && trim(
                b.subrange(e + 1, l),
            ) == i.text
            &&& k == 0 ==> e == -1 && trim(b.subrange(q, l)) == i.text
        }),
{
    reveal_strlit("[");
    reveal_strlit("] ");
    lemma_body_slash(i);
    let b = body_of(i);
    let q = refs_part(i).len() as int;
    let k = component_part(i).len() as int;
    let l = slash_of(i);
    let t = i.text.len() as int;
    let c = i.component;
    if k > 0 {
        let cp = component_part(i);
        assert(cp =~= seq!['['] + c + seq![']', ' ']);
        assert forall|j: int| 0 <= j < k implies b[q + j] == cp[j] by {
            assert((refs_part(i) + cp + i.text + " / "@ + join(i.authors, ", "@))[q + j] == cp[j]);
        }
        assert(b[q] == '[');
        assert forall|j: int| q + 1 <= j < q + k - 1 implies !is_space(b[j]) by {
            assert(b[j] == cp[j - q]);
            if j < q + 1 + c.len() {
                assert(cp[j - q] == c[j - q - 1]);
            }
        }
        assert(b[q + k - 1] == ' ');
        lemma_word_run_end(b, q + 1, q + k - 1);
        assert(b[q + k - 2] == ']');
        assert(last_in(b, ']', q + 2, q + k - 1) == q + k - 2);
        assert(b.subrange(q + 1, q + k - 2) =~= c);
        assert(b.subrange(q + k - 1, l) =~= seq![' '] + i.text + seq![' ']);
        lemma_trim_spaced(seq![' '], i.text, seq![' ']);
    } else {
        assert(b[q] == i.text[0]);
        assert(b.subrange(q, l) =~= Seq::<char>::empty() + i.text + seq![' ']);
        lemma_trim_spaced(Seq::empty(), i.text, seq![' ']);
    }
}

/// An item line reads back as the item it was written from.
#[verifier::rlimit(60)]
pub proof fn lemma_item_round_trip(i: ItemV)
    requires
        valid_item(i),
    ensures
        item_line(item_text(i)) == Ok::<Option<ItemV>, ChgErrorV>(Some(i)),
{
    reveal_strlit("- ");
    reveal_strlit("[");
    reveal_strlit("] ");
    assert(i.component.len() > 0 <==> component_part(i).len() > 0);
    let line = item_text(i);
    let b = body_of(i);
    assert(line =~= "- "@ + b);
    assert(line.subrange(2, line.len() as int) =~= b);
    lemma_body_slash(i);
    lemma_body_refs(i);
    lemma_body_component(i);
    lemma_split_join(seq![' '], i.authors, '/');
    let l = slash_of(i);
    let c = refs_colon(b, l);
    let refs = if c >= 0 {
        trim_all(split_on(b.subrange(0, c), ','))
    } else {
        Seq::empty()
    };
    assert(refs =~= i.refs);
    let q = space_run_end(b, if c >= 0 { c + 1 } else { 0 });
    assert(q == refs_part(i).len());
    let e = component_close(b, q, l);
    let component = if e >= 0 { b.subrange(q + 1, e) } else { Seq::empty() };
    if i.component.len() > 0 {
        assert(component == i.component);
    } else {
        assert(component =~= i.component);
    }
    let start = if e >= 0 { e + 1 } else { q };
    assert(trim(b.subrange(start, l)) == i.text);
    assert(trim_all(split_on(b.subrange(l + 1, b.len() as int), ',')) == i.authors);
    assert(item_body(b) == Some(i));
}

/// Text of `ls`, each line ended by a newline.
pub open spec fn lines_text(ls: Seq<Seq<char>>) -> Seq<char>
    decreases ls.len(),
{
    if ls.len() == 0 {
        Seq::empty()
    } else {
        ls[0] + seq!['\n'] + lines_text(ls.drop_first())
    }
}

/// The lines of a note block, each led by a newline.
pub open spec fn notes_of(ls: Seq<Seq<char>>) -> Seq<char>
    decreases ls.len(),
{
    if ls.len() == 0 {
        Seq::empty()
    } else {
        notes_of(ls.drop_last()) + seq!['\n'] + ls.last()
    }
}

pub open spec fn note_lines(p: Seq<char>) -> Seq<Seq<char>> {
    if p.len() == 0 {
        Seq::empty()
    } else {
        split_on(p.drop_first(), '\n')
    }
}

pub open spec fn no_newline(l: Seq<char>) -> bool {
    forall|k: int| 0 <= k < l.len() ==> l[k] != '\n'
}

proof fn lemma_lines_text_concat(a: Seq<Seq<char>>, b: Seq<Seq<char>>)
    ensures
        lines_text(a + b) == lines_text(a) + lines_text(b),
    decreases a.len(),
{
    if a.len() == 0 {
        assert(a + b =~= b);
        assert(lines_text(a) + lines_text(b) =~= lines_text(b));
    } else {
        assert((a + b).drop_first() =~= a.drop_first() + b);
        assert((a + b)[0] == a[0]);
        lemma_lines_text_concat(a.drop_first(), b);
        assert(a[0] + seq!['\n'] + (lines_text(a.drop_first()) + lines_text(b)) =~= (a[0] + seq!['\n']
            + lines_text(a.drop_first())) + lines_text(b));
    }
}

proof fn lemma_lines_text_push(a: Seq<Seq<char>>, l: Seq<char>)
    ensures
        lines_text(a.push(l)) == lines_text(a) + l + seq!['\n'],
{
    lemma_lines_text_concat(a, seq![l]);
    assert(a + seq![l] =~= a.push(l));
    assert(seq![l].drop_first() =~= Seq::<Seq<char>>::empty());
    assert(seq![l][0] == l);
    assert(lines_text(Seq::<Seq<char>>::empty()) == Seq::<char>::empty());
    assert(lines_text(seq![l]) =~= l + seq!['\n']);
    assert(lines_text(a) + (l + seq!['\n']) =~= lines_text(a) + l + seq!['\n']);
}

proof fn lemma_split_lines(ls: Seq<Seq<char>>, tail: Seq<char>)
    requires
        forall|k: int| 0 <= k < ls.len() ==> no_newline(#[trigger] ls[k]),
    ensures
        split_on(lines_text(ls) + tail, '\n') == ls + split_on(tail, '\n'),
    decreases ls.len(),
{
    if ls.len() == 0 {
        assert(lines_text(ls) + tail =~= tail);
        assert(ls + split_on(tail, '\n') =~= split_on(tail, '\n'));
    } else {
        let rest = ls.drop_first();
        assert(forall|k: int| 0 <= k < rest.len() ==> rest[k] == ls[k + 1]);
        lemma_split_lines(rest, tail);
        let x = lines_text(rest) + tail;
        assert(lines_text(ls) + tail =~= ls[0].push('\n') + x);
        lemma_split_concat(ls[0], '\n', x);
        assert(no_newline(ls[0]));
        lemma_split_solid(ls[0], '\n');
        assert(seq![ls[0]] + (rest + split_on(tail, '\n')) =~= ls + split_on(tail, '\n'));
    }
}

proof fn lemma_lines_of_text(x: Seq<char>)
    ensures
        lines_text(split_on(x, '\n')) == x + seq!['\n'],
    decreases x.len(),
{
    if x.len() == 0 {
        assert(split_on(x, '\n') == seq![Seq::<char>::empty()]);
        assert(seq![Seq::<char>::empty()].drop_first() =~= Seq::<Seq<char>>::empty());
        assert(seq![Seq::<char>::empty()][0] == Seq::<char>::empty());
        assert(lines_text(Seq::<Seq<char>>::empty()) == Seq::<char>::empty());
        assert(lines_text(seq![Seq::<char>::empty()]) =~= x + seq!['\n']);
    } else {
        let y = x.drop_last();
        let ch = x.last();
        lemma_lines_of_text(y);
        crate::text::lemma_split_on_nonempty(y, '\n');
        let sy = split_on(y, '\n');
        if ch == '\n' {
            lemma_lines_text_push(sy, Seq::empty());
            assert(y + seq!['\n'] + Seq::<char>::empty() + seq!['\n'] =~= x + seq!['\n']);
        } else {
            let pre = sy.drop_last();
            assert(sy =~= pre.push(sy.last()));
            lemma_lines_text_push(pre, sy.last());
            let sx = sy.update(sy.len() - 1, sy.last().push(ch));
            assert(sx =~= pre.push(sy.last().push(ch)));
            lemma_lines_text_push(pre, sy.last().push(ch));
            assert(lines_text(pre) + sy.last() =~= y) by {
                assert(lines_text(pre) + sy.last() + seq!['\n'] == y + seq!['\n']);
                assert((lines_text(pre) + sy.last() + seq!['\n']).drop_last() =~= lines_text(pre)
                    + sy.last());
                assert((y + seq!['\n']).drop_last() =~= y);
            }
            assert(x =~= y.push(ch));
            assert(lines_text(pre) + sy.last().push(ch) + seq!['\n'] =~= x + seq!['\n']);
        }
    }
}

proof fn lemma_notes_of(x: Seq<char>)
    ensures
        notes_of(split_on(x, '\n')) == seq!['\n'] + x,
    decreases x.len(),
{
    if x.len() == 0 {
        assert(split_on(x, '\n') == seq![Seq::<char>::empty()]);
        assert(seq![Seq::<char>::empty()].drop_last() =~= Seq::<Seq<char>>::empty());
        assert(seq![Seq::<char>::empty()].last() == Seq::<char>::empty());
        assert(notes_of(Seq::<Seq<char>>::empty()) == Seq::<char>::empty());
        assert(notes_of(seq![Seq::<char>::empty()]) =~= seq!['\n'] + x);
    } else {
        let y = x.drop_last();
        let ch = x.last();
        lemma_notes_of(y);
        crate::text::lemma_split_on_nonempty(y, '\n');
        let sy = split_on(y, '\n');
        if ch == '\n' {
            assert(sy.push(Seq::empty()).drop_last() =~= sy);
            assert(seq!['\n'] + y + seq!['\n'] + Seq::<char>::empty() =~= seq!['\n'] + x);
        } else {
            let pre = sy.drop_last();
            let sx = sy.update(sy.len() - 1, sy.last().push(ch));
            assert(sx.drop_last() =~= pre);
            assert(sy.drop_last() =~= pre);
            assert(notes_of(pre) + seq!['\n'] + sy.last().push(ch) =~= notes_of(sy).push(ch));
            assert(seq!['\n'] + y.push(ch) =~= seq!['\n'] + x);
        }
    }
}

pub open spec fn item_lines(items: Seq<ItemV>) -> Seq<Seq<char>> {
    items.map_values(|i: ItemV| item_text(i))
}

pub open spec fn changeset_lines(c: ChangeSetV) -> Seq<Seq<char>> {
    seq![header_text(c.header)] + if c.items.len() > 0 {
        seq![Seq::<char>::empty()] + item_lines(c.items) + seq![Seq::<char>::empty()]
    } else {
        Seq::empty()
    }
}

pub open spec fn changesets_lines(cs: Seq<ChangeSetV>) -> Seq<Seq<char>>
    decreases cs.len(),
{
    if cs.len() == 0 {
        Seq::empty()
    } else {
        changesets_lines(cs.drop_last()) + changeset_lines(cs.last())
    }
}

/// The lines the renderer writes for `m`, blank ones included.
pub open spec fn render_lines(m: ChangeLogV) -> Seq<Seq<char>> {
    (if m.prolog.len() > 0 {
        note_lines(m.prolog).push(Seq::empty())
    } else {
        Seq::empty()
    }) + changesets_lines(m.changesets) + note_lines(m.epilog)
}

proof fn lemma_items_text(items: Seq<ItemV>)
    ensures
        items_text(items) == lines_text(item_lines(items)),
    decreases items.len(),
{
    if items.len() > 0 {
        lemma_items_text(items.drop_last());
        assert(item_lines(items) =~= item_lines(items.drop_last()).push(item_text(items.last())));
        lemma_lines_text_push(item_lines(items.drop_last()), item_text(items.last()));
    } else {
        assert(item_lines(items) =~= Seq::<Seq<char>>::empty());
    }
}

proof fn lemma_changesets_text(cs: Seq<ChangeSetV>)
    ensures
        changesets_text(cs) == lines_text(changesets_lines(cs)),
    decreases cs.len(),
{
    if cs.len() > 0 {
        lemma_changesets_text(cs.drop_last());
        let c = cs.last();
        lemma_lines_text_concat(changesets_lines(cs.drop_last()), changeset_lines(c));
        let e = Seq::<char>::empty();
        if c.items.len() > 0 {
            lemma_items_text(c.items);
            let tail = seq![e] + item_lines(c.items) + seq![e];
            lemma_lines_text_concat(seq![header_text(c.header)], tail);
            lemma_lines_text_concat(seq![e] + item_lines(c.items), seq![e]);
            lemma_lines_text_concat(seq![e], item_lines(c.items));
            lemma_lines_text_push(Seq::empty(), header_text(c.header));
            lemma_lines_text_push(Seq::empty(), e);
            assert(Seq::<Seq<char>>::empty().push(header_text(c.header)) =~= seq![header_text(c.header)]);
            assert(Seq::<Seq<char>>::empty().push(e) =~= seq![e]);
            assert(changeset_text(c) =~= lines_text(changeset_lines(c)));
        } else {
            lemma_lines_text_push(Seq::empty(), header_text(c.header));
            assert(Seq::<Seq<char>>::empty().push(header_text(c.header)) =~= seq![header_text(c.header)]);
            assert(changeset_lines(c) =~= seq![header_text(c.header)]);
            assert(changeset_text(c) =~= lines_text(changeset_lines(c)));
        }
    }
}

/// A note block whose lines read back as notes: empty, or each line led by a
/// newline, none of them blank or with white space at an end, and none that
/// opens a section (nor, for the first line of an epilog, an item line).
pub open spec fn valid_notes(p: Seq<char>, epilog: bool) -> bool {
    p.len() == 0 || (p[0] == '\n' && forall|k: int|
        0 <= k < note_lines(p).len() ==> {
            let l = #[trigger] note_lines(p)[k];
            &&& l.len() > 0
            &&& trim(l) == l
            &&& (!epilog || k == 0) ==> !is_section_line(l)
            &&& (epilog && k == 0) ==> !is_item_line(l)
        })
}

/// A changelog that the renderer writes so that the parser reads it back.
pub open spec fn valid_changelog(m: ChangeLogV) -> bool {
    &&& valid_notes(m.prolog, false)
    &&& valid_notes(m.epilog, true)
    &&& m.epilog.len() > 0 ==> m.changesets.len() > 0
    &&& forall|k: int| 0 <= k < m.changesets.len() ==> valid_header((#[trigger] m.changesets[k]).header)
    &&& forall|k: int, j: int|
        0 <= k < m.changesets.len() && 0 <= j < m.changesets[k].items.len() ==> valid_item(
            #[trigger] m.changesets[k].items[j],
        )
}

/// The changelog as the parser reads back its markdown: release tags are not written.
pub open spec fn read_back(m: ChangeLogV) -> ChangeLogV {
    ChangeLogV {
        prolog: m.prolog,
        changesets: m.changesets.map_values(
            |c: ChangeSetV| ChangeSetV { header: without_tag(c.header), items: c.items },
        ),
        epilog: m.epilog,
    }
}

proof fn lemma_markdown_lines(m: ChangeLogV)
    requires
        m.prolog.len() > 0 ==> m.prolog[0] == '\n',
        m.epilog.len() > 0 ==> m.epilog[0] == '\n',
    ensures
        markdown_text(m) == lines_text(render_lines(m)),
{
    let e = Seq::<char>::empty();
    let pro: Seq<Seq<char>> = if m.prolog.len() > 0 {
        note_lines(m.prolog).push(e)
    } else {
        Seq::empty()
    };
    lemma_lines_text_concat(pro + changesets_lines(m.changesets), note_lines(m.epilog));
    lemma_lines_text_concat(pro, changesets_lines(m.changesets));
    lemma_changesets_text(m.changesets);
    if m.prolog.len() > 0 {
        let x = m.prolog.drop_first();
        lemma_lines_of_text(x);
        lemma_lines_text_push(split_on(x, '\n'), e);
        assert(strip_newline(m.prolog) == x);
        assert(lines_text(pro) =~= x + seq!['\n', '\n']);
    }
    if m.epilog.len() > 0 {
        let x = m.epilog.drop_first();
        lemma_lines_of_text(x);
        assert(strip_newline(m.epilog) == x);
    }
    assert(markdown_text(m) =~= lines_text(render_lines(m)));
}

proof fn lemma_join_last(ss: Seq<Seq<char>>, sep: Seq<char>)
    requires
        ss.len() > 0,
        ss.last().len() > 0,
    ensures
        join(ss, sep).len() > 0,
        join(ss, sep).last() == ss.last().last(),
{
    if ss.len() > 1 {
        let x = join(ss.drop_last(), sep) + sep + ss.last();
        assert(x.last() == ss.last().last());
    }
}

proof fn lemma_split_pieces(x: Seq<char>, c: char)
    ensures
        forall|k: int, j: int|
            0 <= k < split_on(x, c).len() && 0 <= j < split_on(x, c)[k].len() ==> (#[trigger] split_on(
                x,
                c,
            )[k][j]) != c,
    decreases x.len(),
{
    if x.len() > 0 {
        lemma_split_pieces(x.drop_last(), c);
        crate::text::lemma_split_on_nonempty(x.drop_last(), c);
        let r = split_on(x.drop_last(), c);
        if x.last() != c {
            let s = r.update(r.len() - 1, r.last().push(x.last()));
            assert forall|k: int, j: int| 0 <= k < s.len() && 0 <= j < s[k].len() implies s[k][j] != c by {
                if k == r.len() - 1 && j == r.last().len() {
                } else if k == r.len() - 1 {
                    assert(s[k][j] == r[k][j]);
                } else {
                    assert(s[k] == r[k]);
                }
            }
        } else {
            let s = r.push(Seq::empty());
            assert forall|k: int, j: int| 0 <= k < s.len() && 0 <= j < s[k].len() implies s[k][j] != c by {
                assert(k < r.len());
                assert(s[k] == r[k]);
            }
        }
    }
}

/// A rendered non-blank line: no newline in it, and no white space at its ends.
pub open spec fn clean_line(l: Seq<char>) -> bool {
    l.len() > 0 && no_newline(l) && trim(l) == l
}

proof fn lemma_header_line(h: HeaderV)
    requires
        valid_header(h),
    ensures
        clean_line(header_text(h)),
        !is_item_line(header_text(h)),
{
    reveal_strlit("## Unreleased");
    reveal_strlit("## ");
    let l = header_text(h);
    match h {
        HeaderV::Unreleased => {
            assert(l[0] == '#');
            assert(!is_space(l.last()));
        },
        HeaderV::Release { version, timestamp, yanked, .. } => {
            reveal_strlit(" - ");
            reveal_strlit(" [YANKED]");
            lemma_date_text(timestamp);
            let date = date_text(timestamp);
            let tail: Seq<char> = if yanked { " [YANKED]"@ } else { Seq::empty() };
            assert(l =~= "## "@ + version + " - "@ + date + tail);
            assert(!is_space(l.last())) by {
                if yanked {
                    assert(l.last() == ']');
                } else {
                    assert(l.last() == date[9]);
                }
            }
            assert forall|k: int| 0 <= k < l.len() implies l[k] != '\n' by {
                let a = 3 + version.len();
                let b = a + 3;
                let c = b + 10;
                if k < 3 {
                } else if k < a {
                    assert(l[k] == version[k - 3]);
                    assert(!is_space(version[k - 3]));
                } else if k < b {
                } else if k < c {
                    assert(l[k] == date[k - b]);
                    assert(!is_space(date[k - b]));
                } else {
                    assert(l[k] == tail[k - c]);
                }
            }
            lemma_trim_fixed(l);
        },
    }
}

proof fn lemma_item_line(i: ItemV)
    requires
        valid_item(i),
    ensures
        clean_line(item_text(i)),
        !is_section_line(item_text(i)),
{
    reveal_strlit("- ");
    reveal_strlit(", ");
    reveal_strlit(": ");
    reveal_strlit("[");
    reveal_strlit("] ");
    reveal_strlit(" / ");
    let l = item_text(i);
    let b = body_of(i);
    assert(l =~= "- "@ + b);
    let a = join(i.authors, ", "@);
    lemma_join_last(i.authors, ", "@);
    assert(clean_token(i.authors.last(), '/'));
    assert(l.last() == a.last());
    assert forall|k: int, j: int| 0 <= k < i.authors.len() && 0 <= j < i.authors[k].len() implies (
    #[trigger] i.authors[k][j]) != '\n' by {
        assert(clean_token(i.authors[k], '/'));
    }
    assert forall|k: int, j: int| 0 <= k < i.refs.len() && 0 <= j < i.refs[k].len() implies (
    #[trigger] i.refs[k][j]) != '\n' by {
        assert(clean_token(i.refs[k], ':'));
    }
    lemma_join_avoids(i.authors, ", "@, '\n');
    lemma_join_avoids(i.refs, ", "@, '\n');
    let rp = refs_part(i);
    let cp = component_part(i);
    let pre = rp + cp + i.text;
    assert(b =~= pre + " / "@ + a);
    assert forall|k: int| 0 <= k < rp.len() implies rp[k] != '\n' by {
        if i.refs.len() > 0 {
            let jr = join(i.refs, ", "@);
            if k < jr.len() {
                assert(rp[k] == jr[k]);
            }
        }
    }
    assert forall|k: int| 0 <= k < cp.len() implies cp[k] != '\n' by {
        if i.component.len() > 0 {
            if 1 <= k < 1 + i.component.len() {
                assert(cp[k] == i.component[k - 1]);
                assert(!is_space(i.component[k - 1]));
            }
        }
    }
    assert forall|k: int| 0 <= k < l.len() implies l[k] != '\n' by {
        if k >= 2 {
            let kb = k - 2;
            assert(l[k] == b[kb]);
            if kb < rp.len() {
                assert(b[kb] == rp[kb]);
            } else if kb < rp.len() + cp.len() {
                assert(b[kb] == cp[kb - rp.len()]);
            } else if kb < pre.len() {
                assert(b[kb] == i.text[kb - rp.len() - cp.len()]);
            } else if kb < pre.len() + 3 {
            } else {
                assert(b[kb] == a[kb - pre.len() - 3]);
            }
        }
    }
    lemma_trim_fixed(l);
}

/// The non-blank lines of a rendered changelog: its notes, and for each
/// changeset its header and its items.
pub open spec fn changesets_content(cs: Seq<ChangeSetV>) -> Seq<Seq<char>>
    decreases cs.len(),
{
    if cs.len() == 0 {
        Seq::empty()
    } else {
        changesets_content(cs.drop_last()) + (seq![header_text(cs.last().header)] + item_lines(
            cs.last().items,
        ))
    }
}

proof fn lemma_nonblank_all(ls: Seq<Seq<char>>)
    requires
        forall|k: int| 0 <= k < ls.len() ==> (#[trigger] ls[k]).len() > 0,
    ensures
        nonblank(ls) == ls,
    decreases ls.len(),
{
    if ls.len() > 0 {
        lemma_nonblank_all(ls.drop_last());
        assert(ls.drop_last().push(ls.last()) =~= ls);
    }
}

proof fn lemma_trim_all_fixed(ls: Seq<Seq<char>>)
    requires
        forall|k: int| 0 <= k < ls.len() ==> (#[trigger] ls[k]).len() == 0 || trim(ls[k]) == ls[k],
    ensures
        trim_all(ls) == ls,
{
    assert forall|k: int| 0 <= k < ls.len() implies trim_all(ls)[k] == ls[k] by {
        if ls[k].len() == 0 {
            assert(trim(ls[k]) == ls[k]);
        }
    }
    assert(trim_all(ls) =~= ls);
}

proof fn lemma_changesets_content(m: ChangeLogV, n: int)
    requires
        valid_changelog(m),
        0 <= n <= m.changesets.len(),
    ensures
        nonblank(changesets_lines(m.changesets.take(n))) == changesets_content(m.changesets.take(n)),
        forall|k: int|
            0 <= k < changesets_lines(m.changesets.take(n)).len() ==> (#[trigger] changesets_lines(
                m.changesets.take(n),
            )[k]).len() == 0 || clean_line(changesets_lines(m.changesets.take(n))[k]),
    decreases n,
{
    let cs = m.changesets.take(n);
    if n > 0 {
        lemma_changesets_content(m, n - 1);
        assert(cs.drop_last() =~= m.changesets.take(n - 1));
        let c = cs.last();
        assert(c == m.changesets[n - 1]);
        let e = Seq::<char>::empty();
        let hl = seq![header_text(c.header)];
        lemma_header_line(c.header);
        assert forall|j: int| 0 <= j < item_lines(c.items).len() implies clean_line(
            #[trigger] item_lines(c.items)[j],
        ) by {
            assert(valid_item(m.changesets[n - 1].items[j]));
            lemma_item_line(c.items[j]);
        }
        lemma_nonblank_concat(changesets_lines(cs.drop_last()), changeset_lines(c));
        lemma_nonblank_all(item_lines(c.items));
        lemma_nonblank_all(hl);
        if c.items.len() > 0 {
            lemma_nonblank_concat(hl, seq![e] + item_lines(c.items) + seq![e]);
            lemma_nonblank_concat(seq![e] + item_lines(c.items), seq![e]);
            lemma_nonblank_concat(seq![e], item_lines(c.items));
            assert(seq![e].drop_last() =~= Seq::<Seq<char>>::empty());
            assert(seq![e].last() == e);
            assert(nonblank(Seq::<Seq<char>>::empty()) == Seq::<Seq<char>>::empty());
            assert(nonblank(seq![e]) =~= Seq::<Seq<char>>::empty());
            assert(nonblank(changeset_lines(c)) =~= hl + item_lines(c.items));
        } else {
            assert(item_lines(c.items) =~= Seq::<Seq<char>>::empty());
            assert(changeset_lines(c) =~= hl);
            assert(nonblank(changeset_lines(c)) =~= hl + item_lines(c.items));
        }
        let all = changesets_lines(cs);
        let left = changesets_lines(cs.drop_last());
        let right = changeset_lines(c);
        assert(all == left + right);
        assert forall|k: int| 0 <= k < all.len() implies (#[trigger] all[k]).len() == 0 || clean_line(
            all[k],
        ) by {
            if k < left.len() {
                assert(all[k] == left[k]);
            } else {
                let kk = k - left.len();
                assert(all[k] == right[kk]);
                if kk >= 2 && c.items.len() > 0 && kk <= c.items.len() + 1 {
                    assert(right[kk] == item_lines(c.items)[kk - 2]);
                }
            }
        }
    } else {
        assert(cs =~= Seq::<ChangeSetV>::empty());
    }
}

/// The lines the parser reads from a rendered changelog.
pub open spec fn content_of(m: ChangeLogV) -> Seq<Seq<char>> {
    note_lines(m.prolog) + changesets_content(m.changesets) + note_lines(m.epilog)
}

#[verifier::rlimit(60)]
proof fn lemma_content_lines(m: ChangeLogV)
    requires
        valid_changelog(m),
    ensures
        content_lines(markdown_text(m)) == content_of(m),
{
    let e = Seq::<char>::empty();
    lemma_markdown_lines(m);
    lemma_changesets_content(m, m.changesets.len() as int);
    assert(m.changesets.take(m.changesets.len() as int) =~= m.changesets);
    let r = render_lines(m);
    let pro: Seq<Seq<char>> = if m.prolog.len() > 0 { note_lines(m.prolog).push(e) } else { Seq::empty() };
    let mid = changesets_lines(m.changesets);
    let epi = note_lines(m.epilog);
    assert(r == pro + mid + epi);
    lemma_split_pieces(m.prolog.drop_first(), '\n');
    lemma_split_pieces(m.epilog.drop_first(), '\n');
    assert forall|k: int| 0 <= k < r.len() implies no_newline(#[trigger] r[k]) && (r[k].len() == 0
        || trim(r[k]) == r[k]) by {
        if k < pro.len() {
            assert(r[k] == pro[k]);
            if k < pro.len() - 1 {
                assert(pro[k] == note_lines(m.prolog)[k]);
            }
        } else if k < pro.len() + mid.len() {
            assert(r[k] == mid[k - pro.len()]);
        } else {
            assert(r[k] == epi[k - pro.len() - mid.len()]);
        }
    }
    lemma_split_lines(r, e);
    assert(lines_text(r) + e =~= lines_text(r));
    assert(split_on(e, '\n') == seq![e]);
    assert(r + seq![e] =~= r.push(e));
    lemma_trim_all_fixed(r.push(e));
    assert(r.push(e).drop_last() =~= r);
    assert(r.push(e).last() == e);
    assert(nonblank(r.push(e)) == nonblank(r));
    lemma_nonblank_concat(pro + mid, epi);
    lemma_nonblank_concat(pro, mid);
    assert forall|k: int| 0 <= k < epi.len() implies (#[trigger] epi[k]).len() > 0 by {}
    lemma_nonblank_all(epi);
    if m.prolog.len() > 0 {
        let pl = note_lines(m.prolog);
        assert forall|k: int| 0 <= k < pl.len() implies (#[trigger] pl[k]).len() > 0 by {}
        lemma_nonblank_all(pl);
        assert(pro.drop_last() =~= pl);
        assert(pro.last() == e);
        assert(nonblank(pro) == pl);
    } else {
        assert(nonblank(pro) =~= note_lines(m.prolog));
    }
    assert(content_lines(markdown_text(m)) =~= content_of(m));
}

pub open spec fn parse_from(st: (BuilderV, ParserState), ls: Seq<Seq<char>>) -> Result<
    (BuilderV, ParserState),
    ChgErrorV,
>
    decreases ls.len(),
{
    if ls.len() == 0 {
        Ok(st)
    } else {
        match parse_from(st, ls.drop_last()) {
            Err(e) => Err(e),
            Ok((b, s)) => parse_step(b, s, ls.last()),
        }
    }
}

pub open spec fn parse_then(
    r: Result<(BuilderV, ParserState), ChgErrorV>,
    ls: Seq<Seq<char>>,
) -> Result<(BuilderV, ParserState), ChgErrorV> {
    match r {
        Err(e) => Err(e),
        Ok(st) => parse_from(st, ls),
    }
}

proof fn lemma_parse_lines_from(ls: Seq<Seq<char>>)
    ensures
        parse_lines(ls) == parse_from((empty_builder(), ParserState::Prolog), ls),
    decreases ls.len(),
{
    if ls.len() > 0 {
        lemma_parse_lines_from(ls.drop_last());
    }
}

proof fn lemma_parse_from_concat(st: (BuilderV, ParserState), a: Seq<Seq<char>>, b: Seq<Seq<char>>)
    ensures
        parse_from(st, a + b) == parse_then(parse_from(st, a), b),
    decreases b.len(),
{
    if b.len() == 0 {
        assert(a + b =~= a);
    } else {
        lemma_parse_from_concat(st, a, b.drop_last());
        assert((a + b).drop_last() =~= a + b.drop_last());
        assert((a + b).last() == b.last());
    }
}

/// The builder holding prolog `p` and the changesets `ns`, the last of them open.
pub open spec fn state_after(p: Seq<char>, ns: Seq<ChangeSetV>) -> (BuilderV, ParserState) {
    if ns.len() == 0 {
        (
            BuilderV { prolog: p, closed: Seq::empty(), current: None, epilog: Seq::empty() },
            ParserState::Prolog,
        )
    } else {
        (
            BuilderV {
                prolog: p,
                closed: ns.drop_last(),
                current: Some(ns.last()),
                epilog: Seq::empty(),
            },
            ParserState::Section,
        )
    }
}

pub open spec fn untagged_all(cs: Seq<ChangeSetV>) -> Seq<ChangeSetV> {
    cs.map_values(|c: ChangeSetV| ChangeSetV { header: without_tag(c.header), items: c.items })
}

proof fn lemma_parse_prolog(ls: Seq<Seq<char>>)
    requires
        forall|k: int| 0 <= k < ls.len() ==> !is_section_line(#[trigger] ls[k]),
    ensures
        parse_from((empty_builder(), ParserState::Prolog), ls) == Ok::<
            (BuilderV, ParserState),
            ChgErrorV,
        >(state_after(notes_of(ls), Seq::empty())),
    decreases ls.len(),
{
    if ls.len() > 0 {
        let pre = ls.drop_last();
        assert(forall|k: int| 0 <= k < pre.len() ==> pre[k] == ls[k]);
        lemma_parse_prolog(pre);
        assert(!is_section_line(ls[ls.len() - 1]));
    } else {
        assert(empty_builder() == state_after(notes_of(ls), Seq::empty()).0);
    }
}

proof fn lemma_parse_items(b0: BuilderV, c0: ChangeSetV, items: Seq<ItemV>)
    requires
        forall|k: int| 0 <= k < items.len() ==> valid_item(#[trigger] items[k]),
    ensures
        parse_from((BuilderV { current: Some(c0), ..b0 }, ParserState::Section), item_lines(items))
            == Ok::<(BuilderV, ParserState), ChgErrorV>(
            (
                BuilderV { current: Some(ChangeSetV { items: c0.items + items, ..c0 }), ..b0 },
                ParserState::Section,
            ),
        ),
    decreases items.len(),
{
    if items.len() > 0 {
        let pre = items.drop_last();
        assert(forall|k: int| 0 <= k < pre.len() ==> pre[k] == items[k]);
        lemma_parse_items(b0, c0, pre);
        assert(item_lines(items).drop_last() =~= item_lines(pre));
        let i = items.last();
        assert(valid_item(items[items.len() - 1]));
        lemma_item_line(i);
        lemma_item_round_trip(i);
        assert((c0.items + pre).push(i) =~= c0.items + items);
    } else {
        assert(c0.items + items =~= c0.items);
        assert(item_lines(items) =~= Seq::<Seq<char>>::empty());
    }
}

proof fn lemma_close_state_after(p: Seq<char>, ns: Seq<ChangeSetV>)
    ensures
        close_section(state_after(p, ns).0) == (BuilderV {
            prolog: p,
            closed: ns,
            current: None,
            epilog: Seq::empty(),
        }),
{
    if ns.len() > 0 {
        assert(ns.drop_last().push(ns.last()) =~= ns);
    } else {
        assert(ns =~= Seq::<ChangeSetV>::empty());
    }
}

proof fn lemma_parse_changeset(p: Seq<char>, ns: Seq<ChangeSetV>, c: ChangeSetV)
    requires
        valid_header(c.header),
        forall|k: int| 0 <= k < c.items.len() ==> valid_item(#[trigger] c.items[k]),
    ensures
        parse_from(state_after(p, ns), seq![header_text(c.header)] + item_lines(c.items)) == Ok::<
            (BuilderV, ParserState),
            ChgErrorV,
        >(state_after(p, ns.push(ChangeSetV { header: without_tag(c.header), items: c.items }))),
{
    let prev = state_after(p, ns);
    let hl = seq![header_text(c.header)];
    lemma_parse_from_concat(prev, hl, item_lines(c.items));
    lemma_header_round_trip(c.header);
    assert(hl.drop_last() =~= Seq::<Seq<char>>::empty());
    assert(hl.last() == header_text(c.header));
    let h2 = without_tag(c.header);
    lemma_close_state_after(p, ns);
    let b1 = open_section(prev.0, h2);
    assert(parse_from(prev, hl.drop_last()) == Ok::<(BuilderV, ParserState), ChgErrorV>(prev));
    assert(prev.1 != ParserState::Epilog);
    assert(parse_step(prev.0, prev.1, header_text(c.header)) == Ok::<(BuilderV, ParserState), ChgErrorV>(
        (b1, ParserState::Section),
    ));
    assert(parse_from(prev, hl) == Ok::<(BuilderV, ParserState), ChgErrorV>(
        (b1, ParserState::Section),
    ));
    let c0 = ChangeSetV { header: h2, items: Seq::empty() };
    lemma_parse_items(b1, c0, c.items);
    assert(b1 == BuilderV { current: Some(c0), ..b1 });
    assert(c0.items + c.items =~= c.items);
    let all = ns.push(ChangeSetV { header: h2, items: c.items });
    assert(all.drop_last() =~= ns);
}

proof fn lemma_parse_changesets(m: ChangeLogV, n: int)
    requires
        valid_changelog(m),
        0 <= n <= m.changesets.len(),
    ensures
        parse_from(state_after(m.prolog, Seq::empty()), changesets_content(m.changesets.take(n)))
            == Ok::<(BuilderV, ParserState), ChgErrorV>(
            state_after(m.prolog, untagged_all(m.changesets.take(n))),
        ),
    decreases n,
{
    let cs = m.changesets.take(n);
    if n > 0 {
        lemma_parse_changesets(m, n - 1);
        assert(cs.drop_last() =~= m.changesets.take(n - 1));
        let c = cs.last();
        assert(c == m.changesets[n - 1]);
        let prev_ns = untagged_all(m.changesets.take(n - 1));
        lemma_parse_from_concat(
            state_after(m.prolog, Seq::empty()),
            changesets_content(cs.drop_last()),
            seq![header_text(c.header)] + item_lines(c.items),
        );
        assert forall|k: int| 0 <= k < c.items.len() implies valid_item(#[trigger] c.items[k]) by {
            assert(valid_item(m.changesets[n - 1].items[k]));
        }
        assert(valid_header(m.changesets[n - 1].header));
        lemma_parse_changeset(m.prolog, prev_ns, c);
        assert(untagged_all(cs) =~= prev_ns.push(
            ChangeSetV { header: without_tag(c.header), items: c.items },
        ));
    } else {
        assert(cs =~= Seq::<ChangeSetV>::empty());
        assert(untagged_all(cs) =~= Seq::<ChangeSetV>::empty());
    }
}

proof fn lemma_parse_epilog(p: Seq<char>, ns: Seq<ChangeSetV>, ls: Seq<Seq<char>>)
    requires
        ns.len() > 0,
        ls.len() > 0,
        !is_section_line(ls[0]),
        !is_item_line(ls[0]),
    ensures
        parse_from(state_after(p, ns), ls) == Ok::<(BuilderV, ParserState), ChgErrorV>(
            (
                BuilderV { prolog: p, closed: ns, current: None, epilog: notes_of(ls) },
                ParserState::Epilog,
            ),
        ),
    decreases ls.len(),
{
    assert(ns.drop_last().push(ns.last()) =~= ns);
    if ls.len() == 1 {
        assert(ls.drop_last() =~= Seq::<Seq<char>>::empty());
        assert(ls.last() == ls[0]);
        assert(notes_of(ls.drop_last()) == Seq::<char>::empty());
        assert(Seq::<char>::empty() + seq!['\n'] + ls[0] =~= notes_of(ls));
    } else {
        let pre = ls.drop_last();
        assert(pre[0] == ls[0]);
        lemma_parse_epilog(p, ns, pre);
    }
}

/// Round trip: the markdown that the renderer writes for a changelog reads back
/// as that changelog, but for the release tags, which markdown does not hold.
/// The changelog's notes, headers and items must be ones that read back
/// ([`valid_changelog`]).
#[verifier::rlimit(60)]
pub proof fn lemma_markdown_round_trip(m: ChangeLogV)
    requires
        valid_changelog(m),
    ensures
        markdown(markdown_text(m)) == Ok::<ChangeLogV, ChgErrorV>(read_back(m)),
        embedded_config(markdown_text(m)) is Ok ==> markdown_document(markdown_text(m)) == Ok::<
            ChangeLogV,
            ChgErrorV,
        >(read_back(m)),
{
    lemma_content_lines(m);
    let pl = note_lines(m.prolog);
    let cc = changesets_content(m.changesets);
    let el = note_lines(m.epilog);
    lemma_parse_lines_from(content_of(m));
    let init = (empty_builder(), ParserState::Prolog);
    lemma_parse_from_concat(init, pl + cc, el);
    lemma_parse_from_concat(init, pl, cc);
    lemma_parse_prolog(pl);
    assert(notes_of(pl) == m.prolog) by {
        if m.prolog.len() > 0 {
            lemma_notes_of(m.prolog.drop_first());
            assert(seq!['\n'] + m.prolog.drop_first() =~= m.prolog);
        } else {
            assert(pl =~= Seq::<Seq<char>>::empty());
        }
    }
    lemma_parse_changesets(m, m.changesets.len() as int);
    assert(m.changesets.take(m.changesets.len() as int) =~= m.changesets);
    let ns = untagged_all(m.changesets);
    let s1 = state_after(m.prolog, Seq::empty());
    assert(parse_from(init, pl) == Ok::<(BuilderV, ParserState), ChgErrorV>(s1));
    assert(parse_from(init, pl + cc) == Ok::<(BuilderV, ParserState), ChgErrorV>(
        state_after(m.prolog, ns),
    ));
    assert(read_back(m).changesets == ns);
    if m.epilog.len() > 0 {
        crate::text::lemma_split_on_nonempty(m.epilog.drop_first(), '\n');
        assert(valid_notes(m.epilog, true));
        assert(!is_section_line(el[0]) && !is_item_line(el[0]));
        lemma_parse_epilog(m.prolog, ns, el);
        lemma_notes_of(m.epilog.drop_first());
        assert(seq!['\n'] + m.epilog.drop_first() =~= m.epilog);
        let fin = BuilderV { prolog: m.prolog, closed: ns, current: None, epilog: m.epilog };
        assert(parse_from(init, pl + cc + el) == Ok::<(BuilderV, ParserState), ChgErrorV>(
            (fin, ParserState::Epilog),
        ));
        assert(built(fin) == read_back(m));
    } else {
        assert(el =~= Seq::<Seq<char>>::empty());
        assert(pl + cc + el =~= pl + cc);
        lemma_close_state_after(m.prolog, ns);
        assert(m.epilog =~= Seq::<char>::empty());
        assert(built(state_after(m.prolog, ns).0) == read_back(m));
    }
}

} // verus!
