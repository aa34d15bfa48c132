use vstd::prelude::*;
use crate::annotation::{Annotation, ann_lt};
use crate::ledger::{LedgerEntry, LedgerEntryV};
use crate::point::point_lt;
use crate::severity::severity_rank;

verus! {

/// The identity of a diagnostic group: annotations reported by one producer
/// for one path that share a group id.
#[derive(Clone, Copy, PartialEq, Eq, Structural, Debug)]
pub struct GroupKey {
    pub producer: u64,
    pub group_id: u64,
}

/// A derived diagnostic group: every annotation of one (producer, group id)
/// pair, in the order they were reported, with the chosen primary (if any
/// member is flagged primary) and the anchor the display leads with.
///
/// Groups are never patched: they are recomputed wholesale from the ledger.
#[derive(Debug)]
pub struct DiagnosticGroup {
    pub producer: u64,
    pub group_id: u64,
    pub members: Vec<Annotation>,
    pub primary_index: Option<usize>,
    pub anchor_index: usize,
}

/// The mathematical value of a diagnostic group.
#[verifier::ext_equal]
pub struct GroupV {
    pub producer: u64,
    pub group_id: u64,
    pub members: Seq<Annotation>,
    pub primary_index: Option<int>,
    pub anchor_index: int,
}

impl View for DiagnosticGroup {
    type V = GroupV;

    open spec fn view(&self) -> GroupV {
        GroupV {
            producer: self.producer,
            group_id: self.group_id,
            members: self.members@,
            primary_index: match self.primary_index {
                Option::None => Option::None,
                Option::Some(i) => Option::Some(i as int),
            },
            anchor_index: self.anchor_index as int,
        }
    }
}

/// The values of a sequence of groups.
pub open spec fn group_views(s: Seq<DiagnosticGroup>) -> Seq<GroupV> {
    s.map_values(|g: DiagnosticGroup| g@)
}

/// A structurally sound group: it has members, its anchor is one of them,
/// every member carries the group's id, and the primary index is the first
/// member flagged primary when there is one.
pub open spec fn group_wf(g: GroupV) -> bool {
    &&& g.members.len() >= 1
    &&& 0 <= g.anchor_index < g.members.len()
    &&& forall|i: int| 0 <= i < g.members.len() ==> (#[trigger] g.members[i]).group_id
        == g.group_id
    &&& g.primary_index == first_primary(g.members)
    &&& g.anchor_index == anchor_index_of(g.members)
}

/// The members of group `gid` within one reported set, in report order.
pub open spec fn gid_members(anns: Seq<Annotation>, gid: u64) -> Seq<Annotation> {
    anns.filter(|a: Annotation| a.group_id == gid)
}

/// The distinct group ids of a reported set, in order of first appearance.
pub open spec fn gids_in_order(anns: Seq<Annotation>) -> Seq<u64>
    decreases anns.len(),
{
    if anns.len() == 0 {
        Seq::empty()
    } else {
        let d = gids_in_order(anns.drop_last());
        if d.contains(anns.last().group_id) {
            d
        } else {
            d.push(anns.last().group_id)
        }
    }
}

/// The position of the first member flagged primary, if any.
pub open spec fn first_primary(s: Seq<Annotation>) -> Option<int>
    decreases s.len(),
{
    if s.len() == 0 {
        Option::None
    } else if s[0].is_primary {
        Option::Some(0)
    } else {
        match first_primary(s.drop_first()) {
            Option::None => Option::None,
            Option::Some(i) => Option::Some(i + 1),
        }
    }
}

/// The position of the first member least in display order.
pub open spec fn min_display_index(s: Seq<Annotation>) -> int
    decreases s.len(),
{
    if s.len() <= 1 {
        0
    } else {
        let m = min_display_index(s.drop_last());
        if ann_lt(s.last(), s[m]) {
            s.len() - 1
        } else {
            m
        }
    }
}

/// The member the display leads with: the primary when one is flagged,
/// otherwise the first member in display order.
pub open spec fn anchor_index_of(s: Seq<Annotation>) -> int {
    match first_primary(s) {
        Option::Some(i) => i,
        Option::None => min_display_index(s),
    }
}

/// The group derived for one (producer, group id) pair.
pub open spec fn make_group(producer: u64, gid: u64, members: Seq<Annotation>) -> GroupV {
    GroupV {
        producer,
        group_id: gid,
        members,
        primary_index: first_primary(members),
        anchor_index: anchor_index_of(members),
    }
}

/// All groups of one ledger entry, in order of first appearance of their id.
pub open spec fn entry_groups(e: LedgerEntryV) -> Seq<GroupV> {
    gids_in_order(e.annotations).map_values(
        |gid: u64| make_group(e.producer, gid, gid_members(e.annotations, gid)),
    )
}

/// All groups of a run of ledger entries, entry by entry.
pub open spec fn groups_of_entries(es: Seq<LedgerEntryV>) -> Seq<GroupV>
    decreases es.len(),
{
    if es.len() == 0 {
        Seq::empty()
    } else {
        entry_groups(es[0]) + groups_of_entries(es.drop_first())
    }
}

/// The annotation a group is anchored at.
pub open spec fn group_anchor(g: GroupV) -> Annotation {
    g.members[g.anchor_index]
}

/// Path-wide display order of groups: by anchor start position, then
/// severity (most severe first), then producer id, then group id.
pub open spec fn group_lt(a: GroupV, b: GroupV) -> bool {
    let pa = group_anchor(a).start;
    let pb = group_anchor(b).start;
    let ra = severity_rank(group_anchor(a).severity);
    let rb = severity_rank(group_anchor(b).severity);
    point_lt(pa, pb) || (pa == pb && (ra < rb || (ra == rb && (a.producer < b.producer || (
    a.producer == b.producer && a.group_id < b.group_id)))))
}

/// `s` with `g` inserted before the first element it precedes.
pub open spec fn insert_group(g: GroupV, s: Seq<GroupV>) -> Seq<GroupV>
    decreases s.len(),
{
    if s.len() == 0 {
        seq![g]
    } else if group_lt(g, s[0]) {
        seq![g] + s
    } else {
        seq![s[0]] + insert_group(g, s.drop_first())
    }
}

/// Insertion sort of groups under the display order; stable, and the unique
/// sorted arrangement when no two groups share a sort key.
pub open spec fn sort_groups(s: Seq<GroupV>) -> Seq<GroupV>
    decreases s.len(),
{
    if s.len() == 0 {
        Seq::empty()
    } else {
        insert_group(s.last(), sort_groups(s.drop_last()))
    }
}

/// The sorted groups derived from a path's ledger entries.
pub open spec fn path_groups(es: Seq<LedgerEntryV>) -> Seq<GroupV> {
    sort_groups(groups_of_entries(es))
}

/// A sequence of groups in display order: no later group precedes an
/// earlier one.
pub open spec fn groups_sorted(s: Seq<GroupV>) -> bool {
    forall|i: int, j: int| 0 <= i < j < s.len() ==> !group_lt(#[trigger] s[j], #[trigger] s[i])
}

/// Insertion keeps groups in display order.
pub proof fn lemma_insert_group_sorted(g: GroupV, s: Seq<GroupV>)
    requires
        groups_sorted(s),
    ensures
        groups_sorted(insert_group(g, s)),
    decreases s.len(),
{
    if s.len() == 0 {
    } else if group_lt(g, s[0]) {
        let out = seq![g] + s;
        assert forall|i: int, j: int| 0 <= i < j < out.len() implies !group_lt(
            out[j],
            out[i],
        ) by {
            if i == 0 {
                assert(out[j] == s[j - 1]);
                if j > 1 {
                    assert(!group_lt(s[j - 1], s[0]));
                }
            } else {
                assert(!group_lt(s[j - 1], s[i - 1]));
            }
        }
    } else {
        assert(groups_sorted(s.drop_first())) by {
            assert(forall|i: int, j: int| 0 <= i < j < s.drop_first().len() ==> !group_lt(
                #[trigger] s.drop_first()[j],
                #[trigger] s.drop_first()[i],
            ));
        }
        lemma_insert_group_sorted(g, s.drop_first());
        lemma_insert_group_membership(g, s.drop_first());
        let tail = insert_group(g, s.drop_first());
        let out = seq![s[0]] + tail;
        assert forall|i: int, j: int| 0 <= i < j < out.len() implies !group_lt(
            out[j],
            out[i],
        ) by {
            if i == 0 {
                let x = tail[j - 1];
                assert(x == g || s.drop_first().contains(x));
                if x == g {
                } else {
                    let k = choose|k: int| 0 <= k < s.drop_first().len() && s.drop_first()[k] == x;
                    assert(!group_lt(s[k + 1], s[0]));
                }
            } else {
                assert(!group_lt(tail[j - 1], tail[i - 1]));
            }
        }
    }
}

/// Sorting leaves groups in display order.
pub proof fn lemma_sort_groups_sorted(s: Seq<GroupV>)
    ensures
        groups_sorted(sort_groups(s)),
    decreases s.len(),
{
    if s.len() > 0 {
        lemma_sort_groups_sorted(s.drop_last());
        lemma_insert_group_sorted(s.last(), sort_groups(s.drop_last()));
    }
}

/// The first primary index is in range, is flagged primary, and nothing
/// before it is; when it is `None`, no member is flagged primary.
pub proof fn lemma_first_primary_props(s: Seq<Annotation>)
    ensures
        match first_primary(s) {
            Option::Some(i) => 0 <= i < s.len() && s[i].is_primary && forall|j: int|
                0 <= j < i ==> !(#[trigger] s[j]).is_primary,
            Option::None => forall|j: int| 0 <= j < s.len() ==> !(#[trigger] s[j]).is_primary,
        },
    decreases s.len(),
{
    if s.len() > 0 && !s[0].is_primary {
        lemma_first_primary_props(s.drop_first());
        let rest = s.drop_first();
        match first_primary(rest) {
            Option::Some(i) => {
                assert(s[i + 1] == rest[i]);
                assert forall|j: int| 0 <= j < i + 1 implies !(#[trigger] s[j]).is_primary by {
                    if j > 0 {
                        assert(rest[j - 1] == s[j]);
                    }
                }
            },
            Option::None => {
                assert forall|j: int| 0 <= j < s.len() implies !(#[trigger] s[j]).is_primary by {
                    if j > 0 {
                        assert(rest[j - 1] == s[j]);
                    }
                }
            },
        }
    }
}

/// The least display position is in range.
pub proof fn lemma_min_display_props(s: Seq<Annotation>)
    requires
        s.len() >= 1,
    ensures
        0 <= min_display_index(s) < s.len(),
    decreases s.len(),
{
    if s.len() > 1 {
        lemma_min_display_props(s.drop_last());
    }
}

/// Every collected group id is carried by some annotation of the set.
pub proof fn lemma_gids_present(anns: Seq<Annotation>, gid: u64)
    requires
        gids_in_order(anns).contains(gid),
    ensures
        exists|i: int| 0 <= i < anns.len() && (#[trigger] anns[i]).group_id == gid,
    decreases anns.len(),
{
    if anns.len() > 0 {
        let d = gids_in_order(anns.drop_last());
        let x = anns.last().group_id;
        if d.contains(gid) {
            lemma_gids_present(anns.drop_last(), gid);
            let i = choose|i: int| 0 <= i < anns.drop_last().len() && (#[trigger] anns.drop_last(
            )[i]).group_id == gid;
            assert(anns[i] == anns.drop_last()[i]);
            assert(anns[i].group_id == gid);
        } else {
            assert(!d.contains(x)) by {
                if d.contains(x) {
                    assert(gids_in_order(anns) == d);
                }
            }
            assert(d.push(x).contains(gid));
            let k = choose|k: int| 0 <= k < d.push(x).len() && d.push(x)[k] == gid;
            if k < d.len() {
                assert(d[k] == gid);
            }
            assert(gid == x);
            assert(anns[anns.len() - 1].group_id == gid);
        }
    }
}

/// Every group of an entry is structurally sound.
pub proof fn lemma_entry_groups_wf(e: LedgerEntryV)
    ensures
        forall|k: int| 0 <= k < entry_groups(e).len() ==> group_wf(#[trigger] entry_groups(e)[k]),
        forall|k: int| 0 <= k < entry_groups(e).len() ==> (#[trigger] entry_groups(e)[k]).producer
            == e.producer,
{
    let gids = gids_in_order(e.annotations);
    assert forall|k: int| 0 <= k < entry_groups(e).len() implies group_wf(
        #[trigger] entry_groups(e)[k],
    ) && entry_groups(e)[k].producer == e.producer by {
        let gid = gids[k];
        assert(gids.contains(gid));
        lemma_gids_present(e.annotations, gid);
        let i = choose|i: int| 0 <= i < e.annotations.len() && (#[trigger] e.annotations[i]).group_id
            == gid;
        let members = gid_members(e.annotations, gid);
        e.annotations.lemma_filter_contains(|a: Annotation| a.group_id == gid, i);
        assert(members.contains(e.annotations[i]));
        assert(members.len() >= 1);
        assert forall|j: int| 0 <= j < members.len() implies (#[trigger] members[j]).group_id
            == gid by {
            e.annotations.lemma_filter_pred(|a: Annotation| a.group_id == gid, j);
        }
        lemma_first_primary_props(members);
        lemma_min_display_props(members);
    }
}

/// Every group derived from a run of entries is structurally sound.
pub proof fn lemma_groups_of_entries_wf(es: Seq<LedgerEntryV>)
    ensures
        forall|k: int| 0 <= k < groups_of_entries(es).len() ==> group_wf(
            #[trigger] groups_of_entries(es)[k],
        ),
    decreases es.len(),
{
    if es.len() > 0 {
        lemma_entry_groups_wf(es[0]);
        lemma_groups_of_entries_wf(es.drop_first());
        let head = entry_groups(es[0]);
        let rest = groups_of_entries(es.drop_first());
        assert forall|k: int| 0 <= k < groups_of_entries(es).len() implies group_wf(
            #[trigger] groups_of_entries(es)[k],
        ) by {
            if k < head.len() {
                assert(groups_of_entries(es)[k] == head[k]);
            } else {
                assert(groups_of_entries(es)[k] == rest[k - head.len()]);
            }
        }
    }
}

/// Inserting keeps exactly the old groups plus the new one.
pub proof fn lemma_insert_group_membership(g: GroupV, s: Seq<GroupV>)
    ensures
        insert_group(g, s).len() == s.len() + 1,
        forall|i: int| 0 <= i < insert_group(g, s).len() ==> #[trigger] insert_group(g, s)[i] == g
            || s.contains(insert_group(g, s)[i]),
    decreases s.len(),
{
    if s.len() > 0 && !group_lt(g, s[0]) {
        lemma_insert_group_membership(g, s.drop_first());
        assert forall|i: int| 0 <= i < insert_group(g, s).len() implies #[trigger] insert_group(
            g,
            s,
        )[i] == g || s.contains(insert_group(g, s)[i]) by {
            if i > 0 {
                let x = insert_group(g, s.drop_first())[i - 1];
                assert(insert_group(g, s)[i] == x);
                if x != g {
                    let k = choose|k: int| 0 <= k < s.drop_first().len() && s.drop_first()[k] == x;
                    assert(s[k + 1] == x);
                }
            } else {
                assert(s[0] == insert_group(g, s)[0]);
            }
        }
    }
}

/// Sorting keeps exactly the derived groups.
pub proof fn lemma_sort_groups_membership(s: Seq<GroupV>)
    ensures
        sort_groups(s).len() == s.len(),
        forall|i: int| 0 <= i < sort_groups(s).len() ==> s.contains(#[trigger] sort_groups(s)[i]),
    decreases s.len(),
{
    if s.len() > 0 {
        lemma_sort_groups_membership(s.drop_last());
        lemma_insert_group_membership(s.last(), sort_groups(s.drop_last()));
        assert forall|i: int| 0 <= i < sort_groups(s).len() implies s.contains(
            #[trigger] sort_groups(s)[i],
        ) by {
            let x = sort_groups(s)[i];
            assert(x == s.last() || sort_groups(s.drop_last()).contains(x));
            if x == s.last() {
                assert(s[s.len() - 1] == x);
            } else if sort_groups(s.drop_last()).contains(x) {
                let k = choose|k: int| 0 <= k < sort_groups(s.drop_last()).len() && sort_groups(
                    s.drop_last(),
                )[k] == x;
                assert(s.drop_last().contains(x));
                let m = choose|m: int| 0 <= m < s.drop_last().len() && s.drop_last()[m] == x;
                assert(s[m] == x);
            }
        }
    }
}

/// The collected group ids are pairwise distinct.
pub proof fn lemma_gids_distinct(anns: Seq<Annotation>)
    ensures
        forall|k1: int, k2: int| 0 <= k1 < k2 < gids_in_order(anns).len() ==> gids_in_order(
            anns,
        )[k1] != gids_in_order(anns)[k2],
    decreases anns.len(),
{
    if anns.len() > 0 {
        lemma_gids_distinct(anns.drop_last());
        let d = gids_in_order(anns.drop_last());
        if !d.contains(anns.last().group_id) {
            assert forall|k1: int, k2: int| 0 <= k1 < k2 < gids_in_order(anns).len() implies
            gids_in_order(anns)[k1] != gids_in_order(anns)[k2] by {
                if k2 == d.len() {
                    assert(gids_in_order(anns)[k1] == d[k1]);
                    if d[k1] == anns.last().group_id {
                        assert(d.contains(anns.last().group_id));
                    }
                }
            }
        }
    }
}

/// Every group id of the set was collected.
pub proof fn lemma_gids_complete(anns: Seq<Annotation>, i: int)
    requires
        0 <= i < anns.len(),
    ensures
        gids_in_order(anns).contains(anns[i].group_id),
    decreases anns.len(),
{
    let d = gids_in_order(anns.drop_last());
    if i == anns.len() - 1 {
        if d.contains(anns.last().group_id) {
            assert(gids_in_order(anns).contains(anns[i].group_id));
        } else {
            assert(gids_in_order(anns)[d.len() as int] == anns[i].group_id);
        }
    } else {
        lemma_gids_complete(anns.drop_last(), i);
        assert(anns.drop_last()[i] == anns[i]);
        let k = choose|k: int| 0 <= k < d.len() && d[k] == anns[i].group_id;
        assert(gids_in_order(anns)[k] == anns[i].group_id);
    }
}

/// Every annotation of a report belongs to exactly one derived group: group
/// ids are pairwise distinct across the entry's groups, and each annotation
/// is a member of the group carrying its id.
pub proof fn lemma_entry_groups_partition(e: LedgerEntryV)
    ensures
        forall|k1: int, k2: int| 0 <= k1 < k2 < entry_groups(e).len() ==> (
        #[trigger] entry_groups(e)[k1]).group_id != (#[trigger] entry_groups(e)[k2]).group_id,
        forall|i: int| 0 <= i < e.annotations.len() ==> exists|k: int|
            0 <= k < entry_groups(e).len() && (#[trigger] entry_groups(e)[k]).group_id == (
            #[trigger] e.annotations[i]).group_id && entry_groups(e)[k].members.contains(
                e.annotations[i],
            ),
{
    lemma_gids_distinct(e.annotations);
    let gids = gids_in_order(e.annotations);
    assert forall|k1: int, k2: int| 0 <= k1 < k2 < entry_groups(e).len() implies (
    #[trigger] entry_groups(e)[k1]).group_id != (#[trigger] entry_groups(e)[k2]).group_id by {
        assert(entry_groups(e)[k1].group_id == gids[k1]);
        assert(entry_groups(e)[k2].group_id == gids[k2]);
    }
    assert forall|i: int| 0 <= i < e.annotations.len() implies exists|k: int|
        0 <= k < entry_groups(e).len() && (#[trigger] entry_groups(e)[k]).group_id == (
        #[trigger] e.annotations[i]).group_id && entry_groups(e)[k].members.contains(
            e.annotations[i],
        ) by {
        lemma_gids_complete(e.annotations, i);
        let k = choose|k: int| 0 <= k < gids.len() && gids[k] == e.annotations[i].group_id;
        let gid = gids[k];
        e.annotations.lemma_filter_contains(|a: Annotation| a.group_id == gid, i);
        assert(entry_groups(e)[k].group_id == gid);
        assert(entry_groups(e)[k].members == gid_members(e.annotations, gid));
        assert(entry_groups(e)[k].members.contains(e.annotations[i]));
    }
}

/// Every member of every group of one reported set is one of its
/// annotations.
pub proof fn lemma_gid_members_subset(anns: Seq<Annotation>, gid: u64)
    ensures
        forall|m: int| 0 <= m < gid_members(anns, gid).len() ==> anns.contains(
            #[trigger] gid_members(anns, gid)[m],
        ),
    decreases anns.len(),
{
    reveal(Seq::filter);
    if anns.len() > 0 {
        lemma_gid_members_subset(anns.drop_last(), gid);
        let short = gid_members(anns.drop_last(), gid);
        assert forall|m: int| 0 <= m < gid_members(anns, gid).len() implies anns.contains(
            #[trigger] gid_members(anns, gid)[m],
        ) by {
            let x = gid_members(anns, gid)[m];
            if m < short.len() {
                assert(short[m] == x);
                assert(anns.drop_last().contains(x));
                let k = choose|k: int| 0 <= k < anns.drop_last().len() && anns.drop_last()[k] == x;
                assert(anns[k] == x);
            } else {
                assert(x == anns.last());
                assert(anns[anns.len() - 1] == x);
            }
        }
    }
}

/// Every anchor of every derived, sorted group of a run of entries whose
/// annotations are all well-formed ranges is itself a well-formed range.
pub proof fn lemma_path_groups_anchors_valid(es: Seq<crate::ledger::LedgerEntryV>)
    requires
        crate::ledger::entries_valid(es),
    ensures
        crate::excerpt::anchors_valid(path_groups(es)),
{
    lemma_groups_of_entries_wf(es);
    lemma_groups_of_entries_anchors(es);
    lemma_sort_groups_membership(groups_of_entries(es));
    let sorted = path_groups(es);
    let base = groups_of_entries(es);
    assert forall|i: int| 0 <= i < sorted.len() implies crate::point::point_le(
        group_anchor(#[trigger] sorted[i]).start,
        group_anchor(sorted[i]).end,
    ) by {
        let x = sorted[i];
        assert(base.contains(x));
        let k = choose|k: int| 0 <= k < base.len() && base[k] == x;
        assert(crate::point::point_le(group_anchor(base[k]).start, group_anchor(base[k]).end));
    }
}

/// Every anchor of every group derived from well-formed entries is a
/// well-formed range.
proof fn lemma_groups_of_entries_anchors(es: Seq<crate::ledger::LedgerEntryV>)
    requires
        crate::ledger::entries_valid(es),
    ensures
        forall|k: int| 0 <= k < groups_of_entries(es).len() ==> crate::point::point_le(
            group_anchor(#[trigger] groups_of_entries(es)[k]).start,
            group_anchor(groups_of_entries(es)[k]).end,
        ),
    decreases es.len(),
{
    if es.len() > 0 {
        lemma_entry_groups_anchors(es[0]);
        assert(crate::ledger::entries_valid(es.drop_first())) by {
            assert(forall|i: int| 0 <= i < es.drop_first().len() ==> es.drop_first()[i] == es[i
                + 1]);
        }
        lemma_groups_of_entries_anchors(es.drop_first());
        let head = entry_groups(es[0]);
        let rest = groups_of_entries(es.drop_first());
        assert forall|k: int| 0 <= k < groups_of_entries(es).len() implies crate::point::point_le(
            group_anchor(#[trigger] groups_of_entries(es)[k]).start,
            group_anchor(groups_of_entries(es)[k]).end,
        ) by {
            if k < head.len() {
                assert(groups_of_entries(es)[k] == head[k]);
            } else {
                assert(groups_of_entries(es)[k] == rest[k - head.len()]);
            }
        }
    }
}

/// Every anchor of every group of one well-formed entry is a well-formed
/// range.
proof fn lemma_entry_groups_anchors(e: crate::ledger::LedgerEntryV)
    requires
        crate::ledger::anns_valid(e.annotations),
    ensures
        forall|k: int| 0 <= k < entry_groups(e).len() ==> crate::point::point_le(
            group_anchor(#[trigger] entry_groups(e)[k]).start,
            group_anchor(entry_groups(e)[k]).end,
        ),
{
    lemma_entry_groups_wf(e);
    assert forall|k: int| 0 <= k < entry_groups(e).len() implies crate::point::point_le(
        group_anchor(#[trigger] entry_groups(e)[k]).start,
        group_anchor(entry_groups(e)[k]).end,
    ) by {
        let g = entry_groups(e)[k];
        let gid = gids_in_order(e.annotations)[k];
        assert(g == make_group(e.producer, gid, gid_members(e.annotations, gid)));
        lemma_gid_members_subset(e.annotations, gid);
        let a = group_anchor(g);
        assert(g.members.contains(a));
        let m = choose|m: int| 0 <= m < e.annotations.len() && e.annotations[m] == a;
        assert(crate::annotation::ann_valid(e.annotations[m]));
    }
}

/// All sorted path groups are structurally sound.
pub proof fn lemma_path_groups_wf(es: Seq<LedgerEntryV>)
    ensures
        forall|k: int| 0 <= k < path_groups(es).len() ==> group_wf(#[trigger] path_groups(es)[k]),
{
    lemma_groups_of_entries_wf(es);
    lemma_sort_groups_membership(groups_of_entries(es));
    assert forall|k: int| 0 <= k < path_groups(es).len() implies group_wf(
        #[trigger] path_groups(es)[k],
    ) by {
        let x = path_groups(es)[k];
        assert(groups_of_entries(es).contains(x));
        let m = choose|m: int| 0 <= m < groups_of_entries(es).len() && groups_of_entries(es)[m]
            == x;
    }
}

impl DiagnosticGroup {
    /// The group's identity.
    pub fn key(&self) -> (k: GroupKey)
        ensures
            k == (GroupKey { producer: self.producer, group_id: self.group_id }),
    {
        GroupKey { producer: self.producer, group_id: self.group_id }
    }

    /// The annotation the group is anchored at.
    pub fn anchor(&self) -> (a: &Annotation)
        requires
            group_wf(self@),
        ensures
            *a == group_anchor(self@),
    {
        &self.members[self.anchor_index]
    }

    /// Decides `group_lt(self@, other@)`, the path-wide display order.
    pub fn display_before(&self, other: &DiagnosticGroup) -> (r: bool)
        requires
            group_wf(self@),
            group_wf(other@),
        ensures
            r == group_lt(self@, other@),
    {
        let pa = self.anchor().start;
        let pb = other.anchor().start;
        if pa.before(pb) {
            true
        } else if pa == pb {
            let ra = self.anchor().severity.rank();
            let rb = other.anchor().severity.rank();
            if ra < rb {
                true
            } else if ra == rb {
                self.producer < other.producer || (self.producer == other.producer
                    && self.group_id < other.group_id)
            } else {
                false
            }
        } else {
            false
        }
    }
}

/// Derives the groups of one ledger entry, in first-appearance order of
/// their group ids.
#[verifier::loop_isolation(false)]
pub fn groups_for_entry(e: &LedgerEntry) -> (out: Vec<DiagnosticGroup>)
    ensures
        group_views(out@) == entry_groups(e@),
{
    let anns = &e.annotations;
    let ghost av = anns@;
    let mut gids: Vec<u64> = Vec::new();
    let mut i: usize = 0;
    while i < anns.len()
        invariant
            i <= anns.len(),
            gids@ == gids_in_order(av.take(i as int)),
            av == anns@,
        decreases anns.len() - i,
    {
        let gid = anns[i].group_id;
        let mut seen = false;
        let mut j: usize = 0;
        while j < gids.len()
            invariant
                j <= gids.len(),
                seen == gids@.take(j as int).contains(gid),
            decreases gids.len() - j,
        {
            if gids[j] == gid {
                seen = true;
            }
            proof {
                assert(gids@.take(j + 1).drop_last() =~= gids@.take(j as int));
                assert(gids@.take(j + 1).last() == gids@[j as int]);
                if gids@.take(j as int).contains(gid) {
                    let k = choose|k: int| 0 <= k < j && gids@.take(j as int)[k] == gid;
                    assert(gids@.take(j + 1)[k] == gid);
                }
            }
            j = j + 1;
        }
        proof {
            assert(gids@.take(gids@.len() as int) =~= gids@);
        }
        if !seen {
            gids.push(gid);
        }
        proof {
            assert(av.take(i + 1).drop_last() =~= av.take(i as int));
            assert(av.take(i + 1).last() == av[i as int]);
        }
        i = i + 1;
    }
    proof {
        assert(av.take(av.len() as int) =~= av);
    }
    // Build one group per collected id.
    let mut out: Vec<DiagnosticGroup> = Vec::new();
    let mut k: usize = 0;
    while k < gids.len()
        invariant
            k <= gids.len(),
            gids@ == gids_in_order(av),
            av == anns@,
            group_views(out@) =~= entry_groups(e@).take(k as int),
        decreases gids.len() - k,
    {
        let gid = gids[k];
        // Members: the annotations carrying this id, in report order.
        let mut members: Vec<Annotation> = Vec::new();
        proof {
            reveal(Seq::filter);
            assert(gid_members(av.take(0), gid) =~= Seq::empty());
        }
        let mut i2: usize = 0;
        while i2 < anns.len()
            invariant
                i2 <= anns.len(),
                av == anns@,
                members@ == gid_members(av.take(i2 as int), gid),
            decreases anns.len() - i2,
        {
            proof {
                reveal(Seq::filter);
                assert(av.take(i2 + 1).drop_last() =~= av.take(i2 as int));
                assert(av.take(i2 + 1).last() == av[i2 as int]);
                assert(gid_members(av.take(i2 + 1), gid) == if av[i2 as int].group_id == gid {
                    gid_members(av.take(i2 as int), gid).push(av[i2 as int])
                } else {
                    gid_members(av.take(i2 as int), gid)
                });
            }
            if anns[i2].group_id == gid {
                members.push(anns[i2].duplicate());
            }
            i2 = i2 + 1;
        }
        proof {
            assert(av.take(i2 as int) == av.take(av.len() as int));
            assert(av.take(av.len() as int) =~= av);
            assert(gid_members(av.take(av.len() as int), gid) == gid_members(av, gid));
            assert(members@ == gid_members(av, gid));
        }
        // The first member flagged primary, if any.
        let mut primary_index: Option<usize> = Option::None;
        let mut i3: usize = 0;
        while i3 < members.len()
            invariant
                i3 <= members.len(),
                match primary_index {
                    Option::None => forall|j: int| 0 <= j < i3 ==> !(
                    #[trigger] members@[j]).is_primary,
                    Option::Some(u) => u < i3 && members@[u as int].is_primary && forall|j: int|
                        0 <= j < u ==> !(#[trigger] members@[j]).is_primary,
                },
            decreases members.len() - i3,
        {
            if matches!(primary_index, Option::None) && members[i3].is_primary {
                primary_index = Option::Some(i3);
            }
            i3 = i3 + 1;
        }
        proof {
            match primary_index {
                Option::None => {
                    lemma_first_primary_props(members@);
                    if first_primary(members@) is Some {
                        let i = first_primary(members@)->Some_0;
                        assert(!members@[i].is_primary);
                        assert(false);
                    }
                },
                Option::Some(u) => {
                    lemma_first_primary_prefix(members@, u as int);
                },
            }
        }
        // The anchor: the primary, or the first member in display order.
        let anchor_index: usize = match primary_index {
            Option::Some(i) => i,
            Option::None => {
                let mut m: usize = 0;
                let mut i4: usize = 1;
                proof {
                    if members@.len() > 0 {
                        assert(members@.take(1).len() == 1);
                    }
                }
                while i4 < members.len()
                    invariant
                        members.len() >= 1 ==> (i4 <= members.len() && m < i4 && m as int
                            == min_display_index(members@.take(i4 as int))),
                        members.len() == 0 ==> m == 0,
                        i4 >= 1,
                    decreases members.len() - i4,
                {
                    proof {
                        assert(members@.take(i4 + 1).drop_last() =~= members@.take(i4 as int));
                        assert(members@.take(i4 + 1).last() == members@[i4 as int]);
                    }
                    if members[i4].display_before(&members[m]) {
                        m = i4;
                    }
                    i4 = i4 + 1;
                }
                proof {
                    if members@.len() > 0 {
                        assert(members@.take(members@.len() as int) =~= members@);
                    }
                }
                m
            },
        };
        proof {
            assert(members@ == gid_members(av, gid));
            assert(av == e@.annotations);
            assert(members@ == gid_members(e@.annotations, gid));
        }
        let g = DiagnosticGroup { producer: e.producer, group_id: gid, members, primary_index,
            anchor_index };
        proof {
            assert(g@ =~= make_group(e@.producer, gid, gid_members(e@.annotations, gid)));
            assert(entry_groups(e@).len() == gids_in_order(e@.annotations).len());
            assert(entry_groups(e@)[k as int] == make_group(
                e@.producer,
                gids_in_order(e@.annotations)[k as int],
                gid_members(e@.annotations, gids_in_order(e@.annotations)[k as int]),
            ));
            assert(gids_in_order(e@.annotations)[k as int] == gid);
            assert(entry_groups(e@)[k as int] == g@);
        }
        out.push(g);
        proof {
            assert(group_views(out@) =~= entry_groups(e@).take(k + 1));
        }
        k = k + 1;
    }
    proof {
        assert(entry_groups(e@).take(entry_groups(e@).len() as int) =~= entry_groups(e@));
    }
    out
}

/// Once a primary is found at `i`, longer prefixes find the same one.
proof fn lemma_first_primary_prefix(s: Seq<Annotation>, i: int)
    requires
        0 <= i < s.len(),
        s[i].is_primary,
        forall|j: int| 0 <= j < i ==> !(#[trigger] s[j]).is_primary,
    ensures
        first_primary(s) == Option::Some(i),
    decreases i,
{
    if i == 0 {
    } else {
        lemma_first_primary_prefix(s.drop_first(), i - 1);
    }
}

/// Extending a primary-free prefix by one element either finds the primary
/// there or stays primary-free.
proof fn lemma_first_primary_step(s: Seq<Annotation>, i: int)
    requires
        0 <= i < s.len(),
    ensures
        first_primary(s.take(i)) is None ==> first_primary(s.take(i + 1)) == if s[i].is_primary {
            Option::Some(i)
        } else {
            Option::<int>::None
        },
{
    lemma_first_primary_props(s.take(i));
    lemma_first_primary_props(s.take(i + 1));
    if first_primary(s.take(i)) is None {
        if s[i].is_primary {
            assert(s.take(i + 1)[i] == s[i]);
            assert forall|j: int| 0 <= j < i implies !(#[trigger] s.take(i + 1)[j]).is_primary by {
                assert(s.take(i + 1)[j] == s.take(i)[j]);
            }
            lemma_first_primary_prefix(s.take(i + 1), i);
        } else {
            match first_primary(s.take(i + 1)) {
                Option::None => {
                },
                Option::Some(p) => {
                    assert(s.take(i + 1)[p].is_primary);
                    if p < i {
                        assert(s.take(i)[p].is_primary);
                    }
                },
            }
        }
    }
}

/// Inserts a group into a vector sorted by display order, keeping the value
/// equal to the specification's insertion.
pub fn insert_group_sorted(out: &mut Vec<DiagnosticGroup>, g: DiagnosticGroup)
    requires
        group_wf(g@),
        forall|i: int| 0 <= i < old(out)@.len() ==> group_wf(#[trigger] group_views(old(out)@)[i]),
    ensures
        group_views(final(out)@) == insert_group(g@, group_views(old(out)@)),
        forall|i: int| 0 <= i < final(out)@.len() ==> group_wf(#[trigger] group_views(final(out)@)[i]),
{
    let ghost s = group_views(out@);
    proof {
        assert forall|j: int| 0 <= j < out@.len() implies group_wf((#[trigger] out@[j])@) by {
            assert(group_views(out@)[j] == out@[j]@);
        }
    }
    let mut i: usize = 0;
    while i < out.len() && !g.display_before(&out[i])
        invariant
            i <= out.len(),
            forall|j: int| 0 <= j < i ==> !group_lt(g@, #[trigger] s[j]),
            group_views(out@) == s,
            forall|j: int| 0 <= j < out@.len() ==> group_wf((#[trigger] out@[j])@),
            group_wf(g@),
        decreases out.len() - i,
    {
        proof {
            assert(s[i as int] == out@[i as int]@);
        }
        i = i + 1;
    }
    proof {
        if i < out.len() {
            assert(s[i as int] == out@[i as int]@);
        }
    }
    proof {
        lemma_insert_group_split(g@, s, i as int);
    }
    out.insert(i, g);
    proof {
        assert(group_views(out@) =~= s.take(i as int) + seq![g@] + s.skip(i as int));
        lemma_insert_group_membership(g@, s);
        assert forall|k: int| 0 <= k < out@.len() implies group_wf(
            #[trigger] group_views(out@)[k],
        ) by {
            let x = group_views(out@)[k];
            assert(insert_group(g@, s)[k] == x);
            assert(x == g@ || s.contains(x));
            if x != g@ {
                let m = choose|m: int| 0 <= m < s.len() && s[m] == x;
            }
        }
    }
}

/// Where the inserted group lands: before the first element it precedes.
proof fn lemma_insert_group_split(g: GroupV, s: Seq<GroupV>, i: int)
    requires
        0 <= i <= s.len(),
        forall|j: int| 0 <= j < i ==> !group_lt(g, #[trigger] s[j]),
        i < s.len() ==> group_lt(g, s[i]),
    ensures
        insert_group(g, s) == s.take(i) + seq![g] + s.skip(i),
    decreases i,
{
    if i == 0 {
        assert(insert_group(g, s) =~= s.take(0) + seq![g] + s.skip(0));
    } else {
        lemma_insert_group_split(g, s.drop_first(), i - 1);
        assert(seq![s[0]] + (s.drop_first().take(i - 1) + seq![g] + s.drop_first().skip(i - 1))
            =~= s.take(i) + seq![g] + s.skip(i));
    }
}

/// Sorts derived groups into display order, matching `sort_groups`.
pub fn sort_groups_exec(input: Vec<DiagnosticGroup>) -> (out: Vec<DiagnosticGroup>)
    requires
        forall|i: int| 0 <= i < input@.len() ==> group_wf(#[trigger] group_views(input@)[i]),
    ensures
        group_views(out@) == sort_groups(group_views(input@)),
        forall|i: int| 0 <= i < out@.len() ==> group_wf(#[trigger] group_views(out@)[i]),
{
    let ghost s = group_views(input@);
    let mut out: Vec<DiagnosticGroup> = Vec::new();
    let mut i: usize = 0;
    proof {
        assert(group_views(out@) =~= sort_groups(s.take(0)));
    }
    while i < input.len()
        invariant
            i <= input.len(),
            group_views(input@) == s,
            group_views(out@) == sort_groups(s.take(i as int)),
            forall|j: int| 0 <= j < s.len() ==> group_wf(#[trigger] s[j]),
            forall|j: int| 0 <= j < out@.len() ==> group_wf(#[trigger] group_views(out@)[j]),
        decreases input.len() - i,
    {
        let g = duplicate_group(&input[i]);
        proof {
            assert(group_views(input@)[i as int] == input@[i as int]@);
            assert(g@ == s[i as int]);
            assert(s.take(i + 1).drop_last() =~= s.take(i as int));
            assert(s.take(i + 1).last() == s[i as int]);
        }
        insert_group_sorted(&mut out, g);
        i = i + 1;
    }
    proof {
        assert(s.take(s.len() as int) =~= s);
    }
    out
}

/// A fresh group equal to the given one.
pub fn duplicate_group(g: &DiagnosticGroup) -> (out: DiagnosticGroup)
    ensures
        out@ == g@,
{
    let mut members: Vec<Annotation> = Vec::new();
    let mut i: usize = 0;
    while i < g.members.len()
        invariant
            i <= g.members.len(),
            members@ == g.members@.take(i as int),
        decreases g.members.len() - i,
    {
        members.push(g.members[i].duplicate());
        proof {
            assert(members@ =~= g.members@.take(i + 1));
        }
        i = i + 1;
    }
    proof {
        assert(g.members@.take(g.members@.len() as int) =~= g.members@);
    }
    let out = DiagnosticGroup {
        producer: g.producer,
        group_id: g.group_id,
        members,
        primary_index: g.primary_index,
        anchor_index: g.anchor_index,
    };
    proof {
        assert(out@ =~= g@);
    }
    out
}

} // verus!
