//! The markdown form of a changelog: the inverse of the parser's grammar.

use vstd::prelude::*;
use crate::changelog::{
    ChangeItem, ChangeLog, ChangeLogV, ChangeSet, ChangeSetV, ChangesetHeader, Date, HeaderV,
    ItemV, strings_view,
};
use crate::text::{digit_char, push_char};

verus! {

/// The last `w` decimal digits of `n`, zero padded.
pub open spec fn padded(n: nat, w: nat) -> Seq<char>
    decreases w,
{
    if w == 0 {
        Seq::empty()
    } else {
        padded(n / 10, (w - 1) as nat).push(digit_char(n % 10))
    }
}

pub open spec fn year_number(y: i32) -> nat {
    if y < 0 {
        0
    } else {
        y as nat
    }
}

/// `YYYY-MM-DD`.
pub open spec fn date_text(d: Date) -> Seq<char> {
    padded(year_number(d.year), 4) + seq!['-'] + padded(d.month as nat, 2) + seq!['-'] + padded(
        d.day as nat,
        2,
    )
}

/// `ss` with `sep` between each two.
pub open spec fn join(ss: Seq<Seq<char>>, sep: Seq<char>) -> Seq<char>
    decreases ss.len(),
{
    if ss.len() == 0 {
        Seq::empty()
    } else if ss.len() == 1 {
        ss[0]
    } else {
        join(ss.drop_last(), sep) + sep + ss.last()
    }
}

/// `## Unreleased`, or `## <version> - <YYYY-MM-DD>` with ` [YANKED]` for a yanked release.
pub open spec fn header_text(h: HeaderV) -> Seq<char> {
    match h {
        HeaderV::Unreleased => "## Unreleased"@,
        HeaderV::Release { version, timestamp, yanked, .. } => "## "@ + version + " - "@
            + date_text(timestamp) + if yanked {
            " [YANKED]"@
        } else {
            Seq::empty()
        },
    }
}

/// `- [<refs>: ][\[<component>\] ]<text> / <authors>`.
pub open spec fn item_text(i: ItemV) -> Seq<char> {
    "- "@ + (if i.refs.len() > 0 {
        join(i.refs, ", "@) + ": "@
    } else {
        Seq::empty()
    }) + (if i.component.len() > 0 {
        "["@ + i.component + "] "@
    } else {
        Seq::empty()
    }) + i.text + " / "@ + join(i.authors, ", "@)
}

/// Each item on a line of its own.
pub open spec fn items_text(items: Seq<ItemV>) -> Seq<char>
    decreases items.len(),
{
    if items.len() == 0 {
        Seq::empty()
    } else {
        items_text(items.drop_last()) + item_text(items.last()) + seq!['\n']
    }
}

/// The header line; when there are items, a blank line, the items and another blank line.
pub open spec fn changeset_text(c: ChangeSetV) -> Seq<char> {
    header_text(c.header) + seq!['\n'] + if c.items.len() > 0 {
        seq!['\n'] + items_text(c.items) + seq!['\n']
    } else {
        Seq::empty()
    }
}

pub open spec fn changesets_text(cs: Seq<ChangeSetV>) -> Seq<char>
    decreases cs.len(),
{
    if cs.len() == 0 {
        Seq::empty()
    } else {
        changesets_text(cs.drop_last()) + changeset_text(cs.last())
    }
}

/// A note block without the newline that leads each of its lines.
pub open spec fn strip_newline(p: Seq<char>) -> Seq<char> {
    if p.len() > 0 && p[0] == '\n' {
        p.drop_first()
    } else {
        p
    }
}

/// The whole document: the prolog and a blank line, the changesets, the epilog.
pub open spec fn markdown_text(m: ChangeLogV) -> Seq<char> {
    (if m.prolog.len() > 0 {
        strip_newline(m.prolog) + seq!['\n', '\n']
    } else {
        Seq::empty()
    }) + changesets_text(m.changesets) + if m.epilog.len() > 0 {
        strip_newline(m.epilog) + seq!['\n']
    } else {
        Seq::empty()
    }
}

fn push_padded(out: &mut String, n: u32, w: u32)
    ensures
        final(out)@ == old(out)@ + padded(n as nat, w as nat),
    decreases w,
{
    if w > 0 {
        push_padded(out, n / 10, w - 1);
        let c = ((n % 10) as u8 + 48u8) as char;
        push_char(out, c);
        assert(out@ =~= old(out)@ + padded(n as nat, w as nat));
    } else {
        assert(out@ =~= old(out)@ + padded(n as nat, w as nat));
    }
}

fn push_date(out: &mut String, d: Date)
    ensures
        final(out)@ == old(out)@ + date_text(d),
{
    let y: u32 = if d.year < 0 {
        0
    } else {
        d.year as u32
    };
    push_padded(out, y, 4);
    push_char(out, '-');
    push_padded(out, d.month, 2);
    push_char(out, '-');
    push_padded(out, d.day, 2);
    assert(out@ =~= old(out)@ + date_text(d));
}

pub(crate) fn print_joined(out: &mut String, ss: &Vec<String>, sep: &str)
    ensures
        final(out)@ == old(out)@ + join(strings_view(ss@), sep@),
{
    let ghost v = strings_view(ss@);
    let mut i: usize = 0;
    while i < ss.len()
        invariant
            i <= ss@.len(),
            v == strings_view(ss@),
            out@ == old(out)@ + join(v.take(i as int), sep@),
        decreases ss.len() - i,
    {
        let ghost before = out@;
        if i > 0 {
            out.append(sep);
        }
        out.append(ss[i].as_str());
        proof {
            let t = v.take(i + 1);
            assert(t.drop_last() =~= v.take(i as int));
            if i == 0 {
                assert(join(t, sep@) == t[0]);
                assert(out@ =~= old(out)@ + join(t, sep@));
            } else {
                assert(out@ =~= old(out)@ + join(t, sep@));
            }
        }
        i = i + 1;
    }
    assert(v.take(ss@.len() as int) =~= v);
}

pub(crate) fn print_header(out: &mut String, h: &ChangesetHeader)
    ensures
        final(out)@ == old(out)@ + header_text(h@),
{
    match h {
        ChangesetHeader::Unreleased => {
            out.append("## Unreleased");
        },
        ChangesetHeader::Release(rh) => {
            out.append("## ");
            out.append(rh.version.as_str());
            out.append(" - ");
            push_date(out, rh.timestamp);
            if rh.yanked {
                out.append(" [YANKED]");
            }
            assert(out@ =~= old(out)@ + header_text(h@));
        },
    }
}

fn push_item(out: &mut String, item: &ChangeItem)
    ensures
        final(out)@ == old(out)@ + item_text(item@),
{
    out.append("- ");
    let ghost a = out@;
    if item.refs.len() > 0 {
        print_joined(out, &item.refs, ", ");
        out.append(": ");
    }
    let ghost b = out@;
    if !item.component.as_str().is_empty() {
        out.append("[");
        out.append(item.component.as_str());
        out.append("] ");
    }
    let ghost c = out@;
    out.append(item.text.as_str());
    out.append(" / ");
    print_joined(out, &item.authors, ", ");
    proof {
        let i = item@;
        let r = if i.refs.len() > 0 {
            join(i.refs, ", "@) + ": "@
        } else {
            Seq::empty()
        };
        let k = if i.component.len() > 0 {
            "["@ + i.component + "] "@
        } else {
            Seq::empty()
        };
        assert(b =~= a + r);
        assert(c =~= b + k);
        assert(out@ =~= old(out)@ + item_text(item@));
    }
}

fn push_changeset(out: &mut String, cs: &ChangeSet)
    ensures
        final(out)@ == old(out)@ + changeset_text(cs@),
{
    print_header(out, &cs.header);
    push_char(out, '\n');
    let ghost head = out@;
    if cs.items.len() > 0 {
        push_char(out, '\n');
        let ghost start = out@;
        let ghost iv = cs@.items;
        let mut i: usize = 0;
        while i < cs.items.len()
            invariant
                i <= cs.items@.len(),
                iv == cs@.items,
                out@ == start + items_text(iv.take(i as int)),
            decreases cs.items.len() - i,
        {
            push_item(out, &cs.items[i]);
            push_char(out, '\n');
            assert(iv.take(i + 1).drop_last() =~= iv.take(i as int));
            assert(out@ =~= start + items_text(iv.take(i + 1)));
            i = i + 1;
        }
        assert(iv.take(cs.items@.len() as int) =~= iv);
        push_char(out, '\n');
        assert(out@ =~= old(out)@ + changeset_text(cs@));
    } else {
        assert(out@ =~= old(out)@ + changeset_text(cs@));
    }
}

/// Appends `p` without a leading newline.
fn push_block(out: &mut String, p: &String)
    ensures
        final(out)@ == old(out)@ + strip_newline(p@),
{
    let v = crate::text::chars_of(p.as_str());
    let start: usize = if v.len() > 0 && v[0] == '\n' {
        1
    } else {
        0
    };
    let s = crate::text::string_of(v.as_slice(), start, v.len());
    out.append(s.as_str());
    assert(out@ =~= old(out)@ + strip_newline(p@));
}

impl ChangeLog {
    /// Appends the markdown form of this changelog, by [`markdown_text`].
    pub fn print_markdown(&self, out: &mut String)
        ensures
            final(out)@ == old(out)@ + markdown_text(self@),
    {
        let ghost pro = out@;
        if !self.prolog.as_str().is_empty() {
            push_block(out, &self.prolog);
            push_char(out, '\n');
            push_char(out, '\n');
        }
        let ghost start = out@;
        assert(start =~= pro + (if self@.prolog.len() > 0 {
            strip_newline(self@.prolog) + seq!['\n', '\n']
        } else {
            Seq::empty()
        }));
        let ghost cv = self@.changesets;
        let mut i: usize = 0;
        while i < self.changesets.len()
            invariant
                i <= self.changesets@.len(),
                cv == self@.changesets,
                out@ == start + changesets_text(cv.take(i as int)),
            decreases self.changesets.len() - i,
        {
            push_changeset(out, &self.changesets[i]);
            assert(cv.take(i + 1).drop_last() =~= cv.take(i as int));
            assert(out@ =~= start + changesets_text(cv.take(i + 1)));
            i = i + 1;
        }
        assert(cv.take(self.changesets@.len() as int) =~= cv);
        if !self.epilog.as_str().is_empty() {
            push_block(out, &self.epilog);
            push_char(out, '\n');
        }
        assert(out@ =~= old(out)@ + markdown_text(self@));
    }

    /// The markdown form of this changelog.
    pub fn to_markdown(&self) -> (r: String)
        ensures
            r@ == markdown_text(self@),
    {
        let mut out = String::new();
        self.print_markdown(&mut out);
        assert(out@ =~= markdown_text(self@));
        out
    }
}

} // verus!
