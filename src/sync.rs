//! Synchronization of a curated changelog with a freshly imported one.

use vstd::prelude::*;
use crate::changelog::{
    ChangeItem, ChangeLog, ChangeSet, ChangeSetV, HeaderV, ItemV, changesets_view, items_view,
    strings_view, unreleased_only_first,
};
use crate::changelog::ChangesetHeader::{Release, Unreleased};
use crate::error::{ChgError, ChgErrorV};
use crate::text::{decimal, push_decimal};

verus! {

/// All reference tokens of `items`, in order.
pub open spec fn refs_of(items: Seq<ItemV>) -> Seq<Seq<char>>
    decreases items.len(),
{
    if items.len() == 0 {
        Seq::empty()
    } else {
        refs_of(items.drop_last()) + items.last().refs
    }
}

/// An incoming item is taken when it carries reference tokens none of which
/// has been seen; an item without any token is taken only when `bare` is set.
pub open spec fn accepts(seen: Seq<Seq<char>>, item: ItemV, bare: bool) -> bool {
    if item.refs.len() == 0 {
        bare
    } else {
        forall|k: int| 0 <= k < item.refs.len() ==> !seen.contains(#[trigger] item.refs[k])
    }
}

/// The incoming items that an item-level merge takes, in their incoming order.
/// They are considered from the last to the first; the tokens of each taken
/// item join `seen`.
pub open spec fn merge_items(seen: Seq<Seq<char>>, incoming: Seq<ItemV>, bare: bool) -> Seq<ItemV>
    decreases incoming.len(),
{
    if incoming.len() == 0 {
        Seq::empty()
    } else {
        let item = incoming.last();
        if accepts(seen, item, bare) {
            merge_items(seen + item.refs, incoming.drop_last(), bare).push(item)
        } else {
            merge_items(seen, incoming.drop_last(), bare)
        }
    }
}

/// `old` after an item-level merge of `from` into it: the taken items go in
/// front, and the header becomes that of `from`.
pub open spec fn merged_changeset(old: ChangeSetV, from: ChangeSetV, bare: bool) -> ChangeSetV {
    ChangeSetV {
        header: from.header,
        items: merge_items(refs_of(old.items), from.items, bare) + old.items,
    }
}

pub open spec fn unreleased_count(cs: Seq<ChangeSetV>) -> int {
    if cs.len() > 0 && cs[0].header is Unreleased {
        1
    } else {
        0
    }
}

/// Index of the last release of version `v`, or -1.
pub open spec fn last_version_index(cs: Seq<ChangeSetV>, v: Seq<char>) -> int
    decreases cs.len(),
{
    if cs.len() == 0 {
        -1
    } else if cs.last().header.version() == Some(v) {
        cs.len() - 1
    } else {
        last_version_index(cs.drop_last(), v)
    }
}

pub open spec fn shared_with(new: Seq<ChangeSetV>, h: HeaderV) -> bool {
    match h {
        HeaderV::Unreleased => false,
        HeaderV::Release { version, .. } => last_version_index(new, version) >= 0,
    }
}

pub open spec fn anchor_from(old: Seq<ChangeSetV>, new: Seq<ChangeSetV>, i: int) -> Option<int>
    decreases old.len() - i,
{
    if i >= old.len() {
        None
    } else if i >= 0 && shared_with(new, old[i].header) {
        Some(i)
    } else {
        anchor_from(old, new, i + 1)
    }
}

/// Position in `old` of the newest release whose version `new` also has.
pub open spec fn anchor(old: Seq<ChangeSetV>, new: Seq<ChangeSetV>) -> Option<int> {
    anchor_from(old, new, 0)
}

/// Position in `new` of the anchor's version.
pub open spec fn new_anchor(old: Seq<ChangeSetV>, new: Seq<ChangeSetV>, i: int) -> int {
    last_version_index(new, old[i].header.version()->0)
}

pub enum SyncOutcome {
    Failed(Seq<char>),
    Unchanged,
    Changed(Seq<ChangeSetV>),
}

pub open spec fn divergence_message(n: nat) -> Seq<char> {
    "Existing changelog diverges in "@ + decimal(n) + " releases"@
}

/// The decision table of one synchronization step of `old` from `new`.
/// Without a shared release, a changelog with no release takes the oldest
/// changeset of `new`, its items merged by [`merge_items`]. With one, a
/// changeset of `old` newer than it is a divergence; otherwise the release of
/// `new` right above it is added after `old`'s `Unreleased` changeset, or else
/// `new`'s non-empty `Unreleased` changeset is added, or, when both hold one,
/// merged, taking only items that carry a reference token not seen yet. A step
/// that adds nothing is `Unchanged`.
pub open spec fn sync_outcome(old: Seq<ChangeSetV>, new: Seq<ChangeSetV>) -> SyncOutcome {
    let ou = unreleased_count(old);
    let nu = unreleased_count(new);
    match anchor(old, new) {
        None => {
            if old.len() - ou > 0 {
                SyncOutcome::Failed(
                    "No shared release; changelog is probably from a different project"@,
                )
            } else if new.len() - nu == 0 {
                SyncOutcome::Failed("There is nothing to synchronize"@)
            } else if old.len() == 0 {
                SyncOutcome::Changed(seq![new.last()])
            } else {
                SyncOutcome::Changed(seq![merged_changeset(old[0], new.last(), true)])
            }
        },
        Some(i) => {
            let j = new_anchor(old, new, i);
            if i - ou > 0 {
                SyncOutcome::Failed(divergence_message((i - ou) as nat))
            } else if j - nu > 0 {
                SyncOutcome::Changed(old.insert(ou, new[j - 1]))
            } else if nu == 0 || new[0].items.len() == 0 {
                SyncOutcome::Unchanged
            } else if ou == 0 {
                SyncOutcome::Changed(old.insert(0, new[0]))
            } else if merge_items(refs_of(old[0].items), new[0].items, false).len() == 0 {
                SyncOutcome::Unchanged
            } else {
                SyncOutcome::Changed(old.update(0, merged_changeset(old[0], new[0], false)))
            }
        },
    }
}

proof fn lemma_strings_view_push(v: Seq<String>, s: String)
    ensures
        strings_view(v.push(s)) == strings_view(v).push(s@),
{
    assert(strings_view(v.push(s)) =~= strings_view(v).push(s@));
}

/// Appends copies of the strings of `src`.
fn extend_strings(dst: &mut Vec<String>, src: &Vec<String>)
    ensures
        strings_view(final(dst)@) == strings_view(old(dst)@) + strings_view(src@),
{
    let mut j: usize = 0;
    while j < src.len()
        invariant
            j <= src.len(),
            strings_view(dst@) == strings_view(old(dst)@) + strings_view(src@).take(j as int),
        decreases src.len() - j,
    {
        let s = src[j].clone();
        proof {
            lemma_strings_view_push(dst@, s);
        }
        dst.push(s);
        assert(strings_view(src@).take(j + 1) =~= strings_view(src@).take(j as int).push(
            src@[j as int]@,
        ));
        j = j + 1;
    }
    assert(strings_view(src@).take(src.len() as int) =~= strings_view(src@));
}

/// Every reference token of `items`, in order.
fn gather_refs(items: &Vec<ChangeItem>) -> (r: Vec<String>)
    ensures
        strings_view(r@) == refs_of(items_view(items@)),
{
    let mut r: Vec<String> = Vec::new();
    let mut i: usize = 0;
    while i < items.len()
        invariant
            i <= items.len(),
            strings_view(r@) == refs_of(items_view(items@).take(i as int)),
        decreases items.len() - i,
    {
        extend_strings(&mut r, &items[i].refs);
        assert(items_view(items@).take(i + 1).drop_last() =~= items_view(items@).take(i as int));
        i = i + 1;
    }
    assert(items_view(items@).take(items.len() as int) =~= items_view(items@));
    r
}

fn contains_string(seen: &Vec<String>, s: &String) -> (r: bool)
    ensures
        r == strings_view(seen@).contains(s@),
{
    let mut k: usize = 0;
    while k < seen.len()
        invariant
            k <= seen.len(),
            forall|q: int| 0 <= q < k ==> strings_view(seen@)[q] != s@,
        decreases seen.len() - k,
    {
        if seen[k] == *s {
            assert(strings_view(seen@)[k as int] == s@);
            return true;
        }
        k = k + 1;
    }
    false
}

fn accepted(seen: &Vec<String>, item: &ChangeItem, take_bare: bool) -> (r: bool)
    ensures
        r == accepts(strings_view(seen@), item@, take_bare),
{
    if item.refs.len() == 0 {
        return take_bare;
    }
    let mut k: usize = 0;
    while k < item.refs.len()
        invariant
            k <= item.refs.len(),
            forall|q: int|
                0 <= q < k ==> !strings_view(seen@).contains(#[trigger] item@.refs[q]),
        decreases item.refs.len() - k,
    {
        if contains_string(seen, &item.refs[k]) {
            assert(!accepts(strings_view(seen@), item@, take_bare)) by {
                assert(item@.refs[k as int] == item.refs@[k as int]@);
            }
            return false;
        }
        k = k + 1;
    }
    true
}

impl ChangeSet {
    /// Item-level merge of `from` into this changeset, items without any
    /// reference token included; returns how many items were taken.
    pub fn sync_from(&mut self, from: &ChangeSet) -> (merged: usize)
        ensures
            final(self)@ == merged_changeset(old(self)@, from@, true),
            merged == merge_items(refs_of(old(self)@.items), from@.items, true).len(),
    {
        self.merge_from(from, true)
    }

    /// Item-level merge of `from` into this changeset, by [`merge_items`];
    /// returns how many items were taken.
    pub fn merge_from(&mut self, from: &ChangeSet, take_bare: bool) -> (merged: usize)
        ensures
            final(self)@ == merged_changeset(old(self)@, from@, take_bare),
            merged == merge_items(refs_of(old(self)@.items), from@.items, take_bare).len(),
    {
        let mut seen = gather_refs(&self.items);
        let ghost seen0 = strings_view(seen@);
        let ghost old_items = items_view(self.items@);
        let ghost inc = items_view(from.items@);
        let ghost mut prefix: Seq<ItemV> = Seq::empty();
        let mut merged: usize = 0;
        let mut i: usize = from.items.len();
        assert(inc.take(i as int) =~= inc);
        while i > 0
            invariant
                i <= from.items.len(),
                inc == items_view(from.items@),
                merged == prefix.len(),
                merged <= from.items.len() - i,
                items_view(self.items@) == prefix + old_items,
                merge_items(seen0, inc, take_bare) == merge_items(
                    strings_view(seen@),
                    inc.take(i as int),
                    take_bare,
                ) + prefix,
            decreases i,
        {
            i = i - 1;
            let item = &from.items[i];
            let ghost s = strings_view(seen@);
            assert(inc.take(i + 1).drop_last() =~= inc.take(i as int));
            assert(inc.take(i + 1).last() == item@);
            if accepted(&seen, item, take_bare) {
                let c = item.clone();
                let ghost before = self.items@;
                self.items.insert(0, c);
                assert(items_view(self.items@) =~= seq![item@] + items_view(before));
                extend_strings(&mut seen, &item.refs);
                proof {
                    let m = merge_items(strings_view(seen@), inc.take(i as int), take_bare);
                    assert(m.push(item@) + prefix =~= m + (seq![item@] + prefix));
                    prefix = seq![item@] + prefix;
                    assert(items_view(self.items@) =~= prefix + old_items);
                }
                merged = merged + 1;
            }
        }
        assert(inc.take(0) =~= Seq::<ItemV>::empty());
        assert(prefix =~= merge_items(seen0, inc, take_bare));
        self.header = from.header.clone();
        assert(self@.items =~= merged_changeset(old(self)@, from@, take_bare).items);
        merged
    }
}

struct MetaInfo {
    /// 1 when the list starts with an `Unreleased` changeset, else 0
    unreleased: usize,
    /// number of changesets newer than the shared one, or of all releases when none is shared
    unshared_count: usize,
    /// index of the newest shared changeset
    shared_index: Option<usize>,
}

fn unreleased_heading(a: &[ChangeSet]) -> (r: usize)
    ensures
        r == unreleased_count(changesets_view(a@)),
{
    if a.len() > 0 {
        match &a[0].header {
            Unreleased => 1,
            Release(_) => 0,
        }
    } else {
        0
    }
}

/// Index of the last release of `version` in `a`.
fn version_index(a: &[ChangeSet], version: &String) -> (r: Option<usize>)
    ensures
        match r {
            None => last_version_index(changesets_view(a@), version@) == -1,
            Some(j) => j == last_version_index(changesets_view(a@), version@),
        },
{
    let ghost cs = changesets_view(a@);
    let mut k: usize = a.len();
    assert(cs.take(k as int) =~= cs);
    while k > 0
        invariant
            k <= a.len(),
            cs == changesets_view(a@),
            last_version_index(cs, version@) == last_version_index(cs.take(k as int), version@),
        decreases k,
    {
        assert(cs.take(k as int).drop_last() =~= cs.take(k - 1));
        match &a[k - 1].header {
            Release(rh) => {
                if rh.version == *version {
                    return Some(k - 1);
                }
            },
            Unreleased => {},
        }
        k = k - 1;
    }
    None
}

/// Finds the newest shared release and the number of unshared changesets on each side.
fn comparison_meta(left: &[ChangeSet], right: &[ChangeSet]) -> (r: (MetaInfo, MetaInfo))
    ensures
        ({
            let l = changesets_view(left@);
            let rt = changesets_view(right@);
            &&& r.0.unreleased == unreleased_count(l)
            &&& r.1.unreleased == unreleased_count(rt)
            &&& match anchor(l, rt) {
                None => {
                    &&& r.0.shared_index is None
                    &&& r.1.shared_index is None
                    &&& r.0.unshared_count == l.len() - unreleased_count(l)
                    &&& r.1.unshared_count == rt.len() - unreleased_count(rt)
                },
                Some(i) => {
                    &&& r.0.shared_index matches Some(a) && a == i
                    &&& r.1.shared_index matches Some(b) && b == new_anchor(l, rt, i)
                    &&& 0 <= new_anchor(l, rt, i) < rt.len()
                    &&& r.0.unshared_count == i - unreleased_count(l)
                    &&& r.1.unshared_count == new_anchor(l, rt, i) - unreleased_count(rt)
                },
            }
        }),
{
    let ghost l = changesets_view(left@);
    let ghost rt = changesets_view(right@);
    let left_unreleased = unreleased_heading(left);
    let right_unreleased = unreleased_heading(right);
    let mut i: usize = 0;
    while i < left.len()
        invariant
            i <= left.len(),
            l == changesets_view(left@),
            rt == changesets_view(right@),
            left_unreleased == unreleased_count(l),
            right_unreleased == unreleased_count(rt),
            anchor(l, rt) == anchor_from(l, rt, i as int),
        decreases left.len() - i,
    {
        match &left[i].header {
            Release(rh) => {
                match version_index(right, &rh.version) {
                    Some(j) => {
                        proof {
                            lemma_last_version_index_bounds(rt, rh.version@);
                        }
                        assert(i >= left_unreleased);
                        assert(j >= right_unreleased) by {
                            if j == 0 && right_unreleased == 1 {
                                lemma_last_version_index_is_release(rt, rh.version@);
                            }
                        }
                        let lm = MetaInfo {
                            unreleased: left_unreleased,
                            unshared_count: i - left_unreleased,
                            shared_index: Some(i),
                        };
                        let rm = MetaInfo {
                            unreleased: right_unreleased,
                            unshared_count: j - right_unreleased,
                            shared_index: Some(j),
                        };
                        return (lm, rm);
                    },
                    None => {},
                }
            },
            Unreleased => {},
        }
        i = i + 1;
    }
    let lm = MetaInfo {
        unreleased: left_unreleased,
        unshared_count: left.len() - left_unreleased,
        shared_index: None,
    };
    let rm = MetaInfo {
        unreleased: right_unreleased,
        unshared_count: right.len() - right_unreleased,
        shared_index: None,
    };
    (lm, rm)
}

proof fn lemma_last_version_index_bounds(cs: Seq<ChangeSetV>, v: Seq<char>)
    ensures
        -1 <= last_version_index(cs, v) < cs.len(),
    decreases cs.len(),
{
    if cs.len() > 0 {
        lemma_last_version_index_bounds(cs.drop_last(), v);
    }
}

proof fn lemma_last_version_index_is_release(cs: Seq<ChangeSetV>, v: Seq<char>)
    requires
        last_version_index(cs, v) >= 0,
    ensures
        cs[last_version_index(cs, v)].header.version() == Some(v),
    decreases cs.len(),
{
    lemma_last_version_index_bounds(cs, v);
    if cs.len() > 0 && cs.last().header.version() != Some(v) {
        lemma_last_version_index_is_release(cs.drop_last(), v);
        lemma_last_version_index_bounds(cs.drop_last(), v);
    }
}

fn other_error(msg: &str) -> (e: ChgError)
    ensures
        e@ == ChgErrorV::Other(msg@),
{
    ChgError::Other(msg.to_string())
}

/// One synchronization step of `this` from `newcs`, by the decision table of
/// [`sync_outcome`]: it fails when the histories cannot be aligned, leaving
/// `this` as it was, and otherwise tells whether `this` changed.
pub fn sync_one_from(this: &mut Vec<ChangeSet>, newcs: &[ChangeSet]) -> (r: Result<bool, ChgError>)
    ensures
        match sync_outcome(changesets_view(old(this)@), changesets_view(newcs@)) {
            SyncOutcome::Failed(m) => r matches Err(e) && e@ == ChgErrorV::Other(m)
                && changesets_view(final(this)@) == changesets_view(old(this)@),
            SyncOutcome::Unchanged => r == Ok::<bool, ChgError>(false) && changesets_view(
                final(this)@,
            ) == changesets_view(old(this)@),
            SyncOutcome::Changed(cs) => r == Ok::<bool, ChgError>(true) && changesets_view(
                final(this)@,
            ) == cs,
        },
{
    let ghost o = changesets_view(this@);
    let ghost n = changesets_view(newcs@);
    let (old_meta, new_meta) = comparison_meta(this, newcs);
    match (old_meta.shared_index, new_meta.shared_index) {
        (Some(old_shared_index), Some(new_shared_index)) => {
            if old_meta.unshared_count > 0 {
                let mut msg = "Existing changelog diverges in ".to_string();
                push_decimal(&mut msg, old_meta.unshared_count);
                msg.append(" releases");
                return Err(ChgError::Other(msg));
            }
            if new_meta.unshared_count > 0 {
                assert(anchor(o, n) is Some);
                assert(new_shared_index >= 1);
                let from = newcs[new_shared_index - 1].clone();
                this.insert(old_meta.unreleased, from);
                assert(changesets_view(this@) =~= o.insert(
                    old_meta.unreleased as int,
                    n[new_shared_index - 1],
                ));
                return Ok(true);
            }
            if new_meta.unreleased == 0 || newcs[0].items.len() == 0 {
                return Ok(false);
            }
            if old_meta.unreleased == 0 {
                let from = newcs[0].clone();
                this.insert(0, from);
                assert(changesets_view(this@) =~= o.insert(0, n[0]));
                Ok(true)
            } else {
                let mut first = this.remove(0);
                let merged = first.merge_from(&newcs[0], false);
                let ghost m = first@;
                this.insert(0, first);
                if merged == 0 {
                    assert(changesets_view(this@) =~= o);
                    Ok(false)
                } else {
                    assert(changesets_view(this@) =~= o.update(0, m));
                    Ok(true)
                }
            }
        },
        (None, None) => {
            if old_meta.unshared_count > 0 {
                return Err(
                    other_error("No shared release; changelog is probably from a different project"),
                );
            }
            if new_meta.unshared_count == 0 {
                return Err(other_error("There is nothing to synchronize"));
            }
            let last = newcs.len() - 1;
            if this.len() == 0 {
                this.push(newcs[last].clone());
                assert(changesets_view(this@) =~= seq![n.last()]);
            } else {
                let mut oldest = this.remove(0);
                oldest.sync_from(&newcs[last]);
                this.push(oldest);
                assert(changesets_view(this@) =~= seq![merged_changeset(o[0], n.last(), true)]);
            }
            Ok(true)
        },
        _ => {
            assert(false);
            Ok(false)
        },
    }
}

/// Divergence: when `existing` holds a changeset newer than its newest release
/// shared with `incoming`, other than a leading `Unreleased` one, the step fails
/// with the divergence message; [`sync_one_from`] then leaves `existing` as it was.
pub proof fn lemma_divergence_fails(existing: Seq<ChangeSetV>, incoming: Seq<ChangeSetV>)
    requires
        anchor(existing, incoming) matches Some(i) && i - unreleased_count(existing) > 0,
    ensures
        sync_outcome(existing, incoming) == SyncOutcome::Failed(
            divergence_message((anchor(existing, incoming)->0 - unreleased_count(existing)) as nat),
        ),
{
}

proof fn lemma_anchor_none_without_release(old: Seq<ChangeSetV>, new: Seq<ChangeSetV>, i: int)
    requires
        0 <= i,
        forall|k: int| 0 <= k < old.len() ==> old[k].header is Unreleased,
    ensures
        anchor_from(old, new, i) is None,
    decreases old.len() - i,
{
    if i < old.len() {
        lemma_anchor_none_without_release(old, new, i + 1);
    }
}

/// No two items share a reference token.
pub open spec fn tokens_apart(items: Seq<ItemV>) -> bool {
    forall|a: int, b: int, p: int, q: int|
        0 <= a < items.len() && 0 <= b < items.len() && a != b && 0 <= p < items[a].refs.len() && 0
            <= q < items[b].refs.len() ==> (#[trigger] items[a].refs[p]) != (#[trigger] items[b].refs[q])
}

proof fn lemma_merge_takes_all(seen: Seq<Seq<char>>, items: Seq<ItemV>)
    requires
        tokens_apart(items),
        forall|k: int, p: int|
            0 <= k < items.len() && 0 <= p < items[k].refs.len() ==> !seen.contains(
                #[trigger] items[k].refs[p],
            ),
    ensures
        merge_items(seen, items, true) == items,
    decreases items.len(),
{
    if items.len() > 0 {
        let n = items.len() - 1;
        let x = items.last();
        let pre = items.drop_last();
        assert(x == items[n]);
        assert(accepts(seen, x, true)) by {
            if x.refs.len() > 0 {
                assert forall|p: int| 0 <= p < x.refs.len() implies !seen.contains(#[trigger] x.refs[p]) by {
                    assert(!seen.contains(items[n].refs[p]));
                }
            }
        }
        let seen2 = seen + x.refs;
        assert(forall|k: int| 0 <= k < pre.len() ==> pre[k] == items[k]);
        assert forall|k: int, p: int| 0 <= k < pre.len() && 0 <= p < pre[k].refs.len() implies !seen2.contains(
            #[trigger] pre[k].refs[p],
        ) by {
            let r = pre[k].refs[p];
            assert(r == items[k].refs[p]);
            assert(!seen.contains(items[k].refs[p]));
            if seen2.contains(r) {
                let v = choose|v: int| 0 <= v < seen2.len() && seen2[v] == r;
                if v >= seen.len() {
                    assert(items[n].refs[v - seen.len()] == r);
                    assert(items[k].refs[p] != items[n].refs[v - seen.len()]);
                } else {
                    assert(seen[v] == r);
                }
            }
        }
        assert(tokens_apart(pre)) by {
            assert forall|a: int, b: int, p: int, q: int|
                0 <= a < pre.len() && 0 <= b < pre.len() && a != b && 0 <= p < pre[a].refs.len() && 0
                    <= q < pre[b].refs.len() implies (#[trigger] pre[a].refs[p]) != (
            #[trigger] pre[b].refs[q]) by {
                assert(items[a].refs[p] != items[b].refs[q]);
            }
        }
        lemma_merge_takes_all(seen2, pre);
        assert(pre.push(x) =~= items);
    }
}

/// Bootstrap: into a changelog holding only an empty `Unreleased` changeset, a
/// step from an `incoming` with at least one release merges the items of its
/// oldest changeset into that one slot, which takes the oldest changeset's
/// header; no changeset is added. When no two of those items share a reference
/// token, all of them are taken, in their order.
pub proof fn lemma_bootstrap(incoming: Seq<ChangeSetV>)
    requires
        unreleased_only_first(incoming),
        incoming.len() > unreleased_count(incoming),
    ensures
        ({
            let existing = seq![ChangeSetV { header: HeaderV::Unreleased, items: Seq::empty() }];
            let oldest = incoming.last();
            &&& oldest.header is Release
            &&& sync_outcome(existing, incoming) == SyncOutcome::Changed(
                seq![
                    ChangeSetV {
                        header: oldest.header,
                        items: merge_items(Seq::empty(), oldest.items, true),
                    },
                ],
            )
            &&& tokens_apart(oldest.items) ==> merge_items(Seq::empty(), oldest.items, true)
                == oldest.items
        }),
{
    if tokens_apart(incoming.last().items) {
        lemma_merge_takes_all(Seq::empty(), incoming.last().items);
    }
    let existing = seq![ChangeSetV { header: HeaderV::Unreleased, items: Seq::empty() }];
    lemma_anchor_none_without_release(existing, incoming, 0);
    assert(refs_of(existing[0].items) =~= Seq::empty());
    assert(merge_items(Seq::empty(), incoming.last().items, true) + Seq::empty() =~= merge_items(
        Seq::empty(),
        incoming.last().items,
        true,
    ));
}

proof fn lemma_anchor_from_found(old: Seq<ChangeSetV>, new: Seq<ChangeSetV>, i: int)
    requires
        0 <= i,
        anchor_from(old, new, i) is Some,
    ensures
        i <= anchor_from(old, new, i)->0 < old.len(),
        shared_with(new, old[anchor_from(old, new, i)->0].header),
    decreases old.len() - i,
{
    if i < old.len() && !shared_with(new, old[i].header) {
        lemma_anchor_from_found(old, new, i + 1);
    }
}

/// Repeated synchronization of `existing` from `incoming`: `Some` of the
/// result once a step changes nothing, within `fuel` changing steps; `None`
/// if a step fails or the fuel runs out first.
pub open spec fn sync_run(existing: Seq<ChangeSetV>, incoming: Seq<ChangeSetV>, fuel: nat) -> Option<
    Seq<ChangeSetV>,
>
    decreases fuel,
{
    match sync_outcome(existing, incoming) {
        SyncOutcome::Failed(_) => None,
        SyncOutcome::Unchanged => Some(existing),
        SyncOutcome::Changed(next) => if fuel == 0 {
            None
        } else {
            sync_run(next, incoming, (fuel - 1) as nat)
        },
    }
}

/// No two releases share a version.
pub open spec fn distinct_versions(cs: Seq<ChangeSetV>) -> bool {
    forall|a: int, b: int|
        0 <= a < cs.len() && 0 <= b < cs.len() && (#[trigger] cs[a].header).version() is Some
            && cs[a].header.version() == (#[trigger] cs[b].header).version() ==> a == b
}

/// Changing steps still to come from an anchored state whose anchor sits at `j` in `incoming`.
pub open spec fn steps_left(incoming: Seq<ChangeSetV>, j: int) -> int {
    (j - unreleased_count(incoming)) + if unreleased_count(incoming) == 1
        && incoming[0].items.len() > 0 {
        1int
    } else {
        0int
    }
}

proof fn lemma_last_version_index_at(cs: Seq<ChangeSetV>, k: int)
    requires
        0 <= k < cs.len(),
        cs[k].header.version() is Some,
        distinct_versions(cs),
    ensures
        last_version_index(cs, cs[k].header.version()->0) == k,
    decreases cs.len(),
{
    if k < cs.len() - 1 {
        let d = cs.drop_last();
        assert(d[k] == cs[k]);
        assert(distinct_versions(d)) by {
            assert forall|a: int, b: int|
                0 <= a < d.len() && 0 <= b < d.len() && (#[trigger] d[a].header).version() is Some
                    && d[a].header.version() == (#[trigger] d[b].header).version() implies a
                == b by {
                assert(d[a] == cs[a] && d[b] == cs[b]);
            }
        }
        lemma_last_version_index_at(d, k);
        assert(cs.last().header.version() != cs[k].header.version()) by {
            assert(cs.last() == cs[cs.len() - 1]);
        }
    }
}

proof fn lemma_refs_of_concat(a: Seq<ItemV>, b: Seq<ItemV>)
    ensures
        refs_of(a + b) == refs_of(a) + refs_of(b),
    decreases b.len(),
{
    if b.len() == 0 {
        assert(a + b =~= a);
        assert(refs_of(a) + refs_of(b) =~= refs_of(a));
    } else {
        lemma_refs_of_concat(a, b.drop_last());
        assert((a + b).drop_last() =~= a + b.drop_last());
        assert(refs_of(a) + (refs_of(b.drop_last()) + b.last().refs) =~= (refs_of(a) + refs_of(
            b.drop_last(),
        )) + b.last().refs);
    }
}

proof fn lemma_refs_of_contains(items: Seq<ItemV>, k: int, q: int)
    requires
        0 <= k < items.len(),
        0 <= q < items[k].refs.len(),
    ensures
        refs_of(items).contains(items[k].refs[q]),
    decreases items.len(),
{
    let r = items[k].refs[q];
    if k == items.len() - 1 {
        let pre = refs_of(items.drop_last());
        assert((pre + items.last().refs)[pre.len() + q] == r);
    } else {
        assert(items.drop_last()[k] == items[k]);
        lemma_refs_of_contains(items.drop_last(), k, q);
        let pre = refs_of(items.drop_last());
        let w = choose|w: int| 0 <= w < pre.len() && pre[w] == r;
        assert((pre + items.last().refs)[w] == r);
    }
}

/// An item has a reference token among `s`.
pub open spec fn referenced_in(item: ItemV, s: Seq<Seq<char>>) -> bool {
    exists|q: int| 0 <= q < item.refs.len() && s.contains(#[trigger] item.refs[q])
}

/// An item that a merge without bare items leaves out: one without tokens, or
/// one with a token among `seen`.
pub open spec fn left_out(item: ItemV, seen: Seq<Seq<char>>) -> bool {
    item.refs.len() == 0 || referenced_in(item, seen)
}

proof fn lemma_merge_rejects(seen: Seq<Seq<char>>, items: Seq<ItemV>)
    requires
        forall|k: int| 0 <= k < items.len() ==> left_out(#[trigger] items[k], seen),
    ensures
        merge_items(seen, items, false) == Seq::<ItemV>::empty(),
    decreases items.len(),
{
    if items.len() > 0 {
        assert(left_out(items[items.len() - 1], seen));
        assert(!accepts(seen, items.last(), false));
        assert forall|k: int| 0 <= k < items.drop_last().len() implies left_out(
            #[trigger] items.drop_last()[k],
            seen,
        ) by {
            assert(items.drop_last()[k] == items[k]);
        }
        lemma_merge_rejects(seen, items.drop_last());
    }
}

proof fn lemma_contains_widen(s: Seq<Seq<char>>, t: Seq<Seq<char>>, r: Seq<char>)
    requires
        s.contains(r),
        forall|w: int| 0 <= w < s.len() ==> t.contains(#[trigger] s[w]),
    ensures
        t.contains(r),
{
}

/// After a merge, each referenced incoming item has a token among the seen
/// tokens and those of the taken items.
proof fn lemma_merge_covers(seen: Seq<Seq<char>>, items: Seq<ItemV>, bare: bool)
    ensures
        forall|k: int|
            0 <= k < items.len() && (#[trigger] items[k]).refs.len() > 0 ==> referenced_in(
                items[k],
                seen + refs_of(merge_items(seen, items, bare)),
            ),
    decreases items.len(),
{
    if items.len() > 0 {
        let x = items.last();
        let pre = items.drop_last();
        if accepts(seen, x, bare) {
            let seen2 = seen + x.refs;
            lemma_merge_covers(seen2, pre, bare);
            let m = merge_items(seen2, pre, bare);
            let all = seen + refs_of(m.push(x));
            assert(m.push(x).drop_last() =~= m);
            assert(refs_of(m.push(x)) == refs_of(m) + x.refs);
            assert forall|w: int| 0 <= w < (seen2 + refs_of(m)).len() implies all.contains(
                #[trigger] (seen2 + refs_of(m))[w],
            ) by {
                let v = (seen2 + refs_of(m))[w];
                if w < seen.len() {
                    assert(all[w] == v);
                } else if w < seen2.len() {
                    assert(all[seen.len() + refs_of(m).len() + (w - seen.len())] == v);
                } else {
                    assert(all[w - x.refs.len()] == v);
                }
            }
            assert forall|k: int|
                0 <= k < items.len() && (#[trigger] items[k]).refs.len() > 0 implies referenced_in(
                items[k],
                all,
            ) by {
                if k == items.len() - 1 {
                    assert(all[(seen.len() + refs_of(m).len()) as int] == x.refs[0]);
                    assert(all.contains(items[k].refs[0]));
                } else {
                    assert(pre[k] == items[k]);
                    assert(referenced_in(pre[k], seen2 + refs_of(m)));
                    let q = choose|q: int|
                        0 <= q < pre[k].refs.len() && (seen2 + refs_of(m)).contains(
                            #[trigger] pre[k].refs[q],
                        );
                    lemma_contains_widen(seen2 + refs_of(m), all, pre[k].refs[q]);
                }
            }
        } else {
            lemma_merge_covers(seen, pre, bare);
            let m = merge_items(seen, pre, bare);
            assert forall|k: int|
                0 <= k < items.len() && (#[trigger] items[k]).refs.len() > 0 implies referenced_in(
                items[k],
                seen + refs_of(m),
            ) by {
                if k == items.len() - 1 {
                    let q = choose|q: int| 0 <= q < x.refs.len() && seen.contains(#[trigger] x.refs[q]);
                    let w = choose|w: int| 0 <= w < seen.len() && seen[w] == x.refs[q];
                    assert((seen + refs_of(m))[w] == x.refs[q]);
                } else {
                    assert(pre[k] == items[k]);
                }
            }
        }
    }
}

/// Merged without bare items a second time, an incoming changeset adds nothing.
proof fn lemma_remerge_empty(e0: Seq<ItemV>, inc0: Seq<ItemV>)
    ensures
        merge_items(refs_of(merge_items(refs_of(e0), inc0, false) + e0), inc0, false)
            == Seq::<ItemV>::empty(),
{
    let m = merge_items(refs_of(e0), inc0, false);
    lemma_merge_covers(refs_of(e0), inc0, false);
    lemma_refs_of_concat(m, e0);
    let target = refs_of(m + e0);
    assert forall|k: int| 0 <= k < inc0.len() implies left_out(#[trigger] inc0[k], target) by {
      if inc0[k].refs.len() > 0 {
        let src = refs_of(e0) + refs_of(m);
        assert(referenced_in(inc0[k], src));
        let q = choose|q: int| 0 <= q < inc0[k].refs.len() && src.contains(#[trigger] inc0[k].refs[q]);
        assert forall|w: int| 0 <= w < src.len() implies target.contains(#[trigger] src[w]) by {
            if w < refs_of(e0).len() {
                assert(target[refs_of(m).len() + w] == src[w]);
            } else {
                assert(target[w - refs_of(e0).len()] == src[w]);
            }
        }
        lemma_contains_widen(src, target, inc0[k].refs[q]);
      }
    }
    lemma_merge_rejects(target, inc0);
}

proof fn lemma_own_refs(items: Seq<ItemV>)
    ensures
        merge_items(refs_of(items), items, false) == Seq::<ItemV>::empty(),
{
    assert forall|k: int| 0 <= k < items.len() implies left_out(
        #[trigger] items[k],
        refs_of(items),
    ) by {
        if items[k].refs.len() > 0 {
            lemma_refs_of_contains(items, k, 0);
        }
    }
    lemma_merge_rejects(refs_of(items), items);
}

/// The end of a run from an anchored state whose anchor in `incoming` is right
/// after its `Unreleased` changeset, if any.
proof fn lemma_run_top(e: Seq<ChangeSetV>, inc: Seq<ChangeSetV>, fuel: nat)
    requires
        unreleased_only_first(inc),
        anchor(e, inc) == Some(unreleased_count(e)),
        new_anchor(e, inc, unreleased_count(e)) == unreleased_count(inc),
        fuel >= steps_left(inc, unreleased_count(inc)),
    ensures
        sync_run(e, inc, fuel) matches Some(f) && f.len() <= e.len() + steps_left(
            inc,
            unreleased_count(inc),
        ) && sync_outcome(f, inc) == SyncOutcome::Unchanged,
{
    let ou = unreleased_count(e);
    let nu = unreleased_count(inc);
    if nu == 0 || inc[0].items.len() == 0 {
        assert(sync_outcome(e, inc) == SyncOutcome::Unchanged);
    } else if ou == 0 {
        let e2 = e.insert(0, inc[0]);
        assert(sync_outcome(e, inc) == SyncOutcome::Changed(e2));
        assert(unreleased_count(e2) == 1);
        assert(e2[1] == e[0]);
        assert(anchor_from(e, inc, 0) == Some(0int));
        assert(shared_with(inc, e[0].header));
        assert(anchor_from(e2, inc, 1) == Some(1int));
        assert(anchor(e2, inc) == Some(1int));
        assert(new_anchor(e2, inc, 1) == nu);
        assert(e2[0] == inc[0]);
        lemma_own_refs(inc[0].items);
        assert(sync_outcome(e2, inc) == SyncOutcome::Unchanged);
        assert(sync_run(e2, inc, (fuel - 1) as nat) == Some(e2));
    } else {
        let m = merge_items(refs_of(e[0].items), inc[0].items, false);
        if m.len() == 0 {
            assert(sync_outcome(e, inc) == SyncOutcome::Unchanged);
        } else {
            let c = merged_changeset(e[0], inc[0], false);
            let e2 = e.update(0, c);
            assert(sync_outcome(e, inc) == SyncOutcome::Changed(e2));
            assert(unreleased_count(e2) == 1);
            lemma_anchor_from_found(e, inc, 0);
            assert(e2[1] == e[1]);
            assert(anchor_from(e2, inc, 1) == Some(1int));
            assert(anchor(e2, inc) == Some(1int));
            assert(new_anchor(e2, inc, 1) == nu);
            lemma_remerge_empty(e[0].items, inc[0].items);
            assert(sync_outcome(e2, inc) == SyncOutcome::Unchanged);
            assert(sync_run(e2, inc, (fuel - 1) as nat) == Some(e2));
        }
    }
}

/// A run from an anchored state whose anchor in `incoming` sits at `j`.
proof fn lemma_run_anchored(e: Seq<ChangeSetV>, inc: Seq<ChangeSetV>, fuel: nat)
    requires
        unreleased_only_first(inc),
        distinct_versions(inc),
        anchor(e, inc) == Some(unreleased_count(e)),
        fuel >= steps_left(inc, new_anchor(e, inc, unreleased_count(e))),
    ensures
        sync_run(e, inc, fuel) matches Some(f) && f.len() <= e.len() + steps_left(
            inc,
            new_anchor(e, inc, unreleased_count(e)),
        ) && sync_outcome(f, inc) == SyncOutcome::Unchanged,
    decreases new_anchor(e, inc, unreleased_count(e)),
{
    let ou = unreleased_count(e);
    let nu = unreleased_count(inc);
    let j = new_anchor(e, inc, ou);
    lemma_anchor_from_found(e, inc, 0);
    lemma_last_version_index_bounds(inc, e[ou].header.version()->0);
    assert(j >= nu) by {
        if j == 0 && nu == 1 {
            lemma_last_version_index_is_release(inc, e[ou].header.version()->0);
        }
    }
    if j == nu {
        lemma_run_top(e, inc, fuel);
    } else {
        let c = inc[j - 1];
        let e2 = e.insert(ou, c);
        assert(sync_outcome(e, inc) == SyncOutcome::Changed(e2));
        assert(c.header is Release) by {
            if j - 1 == 0 {
                assert(nu == 0);
            }
        }
        lemma_last_version_index_at(inc, j - 1);
        if ou == 1 {
            assert(e2[0] == e[0]);
            assert(e2[1] == c);
            assert(unreleased_count(e2) == 1);
            assert(anchor_from(e2, inc, 1) == Some(1int));
            assert(anchor(e2, inc) == Some(1int));
        } else {
            assert(e2[0] == c);
            assert(unreleased_count(e2) == 0);
            assert(anchor(e2, inc) == Some(0int));
        }
        assert(new_anchor(e2, inc, ou) == j - 1);
        lemma_run_anchored(e2, inc, (fuel - 1) as nat);
    }
}

/// Convergence: synchronizing the same `incoming` into `existing` again and
/// again comes, within `incoming.len()` changing steps, to a changelog on which
/// one more step changes nothing; on the way at most `incoming.len()`
/// changesets are added, and into a non-empty `existing` at most as many as
/// `incoming` has releases. This holds when `incoming` keeps its `Unreleased`
/// changeset in front and names each version once, and when `existing` either
/// shares its newest release with `incoming` or holds no release at all while
/// `incoming` holds one.
pub proof fn lemma_sync_converges(existing: Seq<ChangeSetV>, incoming: Seq<ChangeSetV>)
    requires
        unreleased_only_first(incoming),
        distinct_versions(incoming),
        anchor(existing, incoming) == Some(unreleased_count(existing)) || (existing.len()
            == unreleased_count(existing) && incoming.len() > unreleased_count(incoming)),
    ensures
        sync_run(existing, incoming, incoming.len() as nat) matches Some(f) && f.len()
            <= existing.len() + incoming.len() && sync_outcome(f, incoming) == SyncOutcome::Unchanged,
        existing.len() > 0 ==> (sync_run(existing, incoming, incoming.len() as nat) matches Some(f)
            && f.len() <= existing.len() + (incoming.len() - unreleased_count(incoming))),
{
    let ou = unreleased_count(existing);
    let nu = unreleased_count(incoming);
    if anchor(existing, incoming) == Some(ou) {
        let j = new_anchor(existing, incoming, ou);
        lemma_anchor_from_found(existing, incoming, 0);
        lemma_last_version_index_bounds(incoming, existing[ou].header.version()->0);
        lemma_run_anchored(existing, incoming, incoming.len() as nat);
        assert(j < incoming.len());
    } else {
        assert forall|k: int| 0 <= k < existing.len() implies existing[k].header is Unreleased by {
            assert(k == 0);
        }
        lemma_anchor_none_without_release(existing, incoming, 0);
        let n = incoming.len();
        let last = incoming[n - 1];
        assert(last.header is Release) by {
            if n - 1 == 0 {
                assert(nu == 0);
            }
        }
        let c = if existing.len() == 0 {
            last
        } else {
            merged_changeset(existing[0], last, true)
        };
        let e2 = seq![c];
        assert(sync_outcome(existing, incoming) == SyncOutcome::Changed(e2));
        lemma_last_version_index_at(incoming, n - 1);
        assert(unreleased_count(e2) == 0);
        assert(anchor(e2, incoming) == Some(0int));
        assert(new_anchor(e2, incoming, 0) == n - 1);
        lemma_run_anchored(e2, incoming, (n - 1) as nat);
        assert(sync_run(existing, incoming, n as nat) == sync_run(e2, incoming, (n - 1) as nat));
        assert(existing.len() <= 1);
    }
}

/// A synchronization step keeps the model's invariant: when both changelogs
/// hold an `Unreleased` changeset at most at their front, so does the result.
pub proof fn lemma_sync_keeps_unreleased_first(existing: Seq<ChangeSetV>, incoming: Seq<ChangeSetV>)
    requires
        unreleased_only_first(existing),
        unreleased_only_first(incoming),
    ensures
        sync_outcome(existing, incoming) matches SyncOutcome::Changed(cs) ==> unreleased_only_first(
            cs,
        ),
{
    let ou = unreleased_count(existing);
    let nu = unreleased_count(incoming);
    match anchor(existing, incoming) {
        None => {},
        Some(i) => {
            let j = new_anchor(existing, incoming, i);
            if i - ou > 0 {
            } else if j - nu > 0 {
                lemma_last_version_index_bounds(incoming, existing[i].header.version()->0);
                let c = incoming[j - 1];
                assert(c.header is Release) by {
                    if j - 1 == 0 {
                        assert(nu == 0);
                    }
                }
                let cs = existing.insert(ou, c);
                assert forall|k: int| 0 < k < cs.len() implies cs[k].header is Release by {
                    if k < ou {
                    } else if k == ou {
                        assert(cs[k] == c);
                    } else {
                        assert(cs[k] == existing[k - 1]);
                        if k - 1 == 0 {
                            assert(ou == 0);
                        }
                    }
                }
            } else if nu == 0 || incoming[0].items.len() == 0 {
            } else if ou == 0 {
                let cs = existing.insert(0, incoming[0]);
                assert forall|k: int| 0 < k < cs.len() implies cs[k].header is Release by {
                    assert(cs[k] == existing[k - 1]);
                }
            } else {
                let cs = existing.update(0, merged_changeset(existing[0], incoming[0], false));
                assert forall|k: int| 0 < k < cs.len() implies cs[k].header is Release by {
                    assert(cs[k] == existing[k]);
                }
            }
        },
    }
}

impl ChangeLog {
    /// Synchronizes one step of `new` into this changelog; see [`sync_one_from`].
    /// A changelog without any changeset is refused.
    pub fn sync_from(&mut self, new: &ChangeLog) -> (r: Result<bool, ChgError>)
        ensures
            final(self).prolog@ == old(self).prolog@,
            final(self).epilog@ == old(self).epilog@,
            final(self).meta == old(self).meta,
            final(self).config == old(self).config,
            old(self).changesets.len() == 0 ==> (r matches Err(e) && e@ == ChgErrorV::Other(
                "Cannot sync into empty changelog"@,
            ) && final(self)@ == old(self)@),
            old(self).changesets.len() > 0 ==> match sync_outcome(
                old(self)@.changesets,
                new@.changesets,
            ) {
                SyncOutcome::Failed(m) => r matches Err(e) && e@ == ChgErrorV::Other(m)
                    && final(self)@ == old(self)@,
                SyncOutcome::Unchanged => r == Ok::<bool, ChgError>(false) && final(self)@
                    == old(self)@,
                SyncOutcome::Changed(cs) => r == Ok::<bool, ChgError>(true)
                    && final(self)@.changesets == cs,
            },
    {
        if self.changesets.len() == 0 {
            return Err(other_error("Cannot sync into empty changelog"));
        }
        sync_one_from(&mut self.changesets, &new.changesets)
    }
}

} // verus!
