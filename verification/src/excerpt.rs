use vstd::prelude::*;
use crate::config::ProjectionConfig;
use crate::document::{Document, clip_point, clip_row, doc_max_row, doc_line_len,
    lemma_clip_point_in_bounds};
use crate::group::{DiagnosticGroup, GroupKey, GroupV, group_anchor, group_views, group_wf};
use crate::pathname::PathKey;
use crate::point::{Point, point_le};

verus! {

/// One displayable source excerpt: a contiguous run of rows around one or
/// more diagnostic groups, with the primary range of the first group it
/// shows.  `gap_before` records the collapsed-context marker: rows were
/// skipped between the previous excerpt of the same path and this one.
#[derive(Debug)]
pub struct Excerpt {
    pub path: PathKey,
    pub start_row: u32,
    pub end_row: u32,
    pub primary_start: Point,
    pub primary_end: Point,
    pub group_keys: Vec<GroupKey>,
    pub gap_before: bool,
}

/// The mathematical value of an excerpt.
#[verifier::ext_equal]
pub struct ExcerptV {
    pub path: Seq<u8>,
    pub start_row: u32,
    pub end_row: u32,
    pub primary_start: Point,
    pub primary_end: Point,
    pub group_keys: Seq<GroupKey>,
    pub gap_before: bool,
}

impl View for Excerpt {
    type V = ExcerptV;

    open spec fn view(&self) -> ExcerptV {
        ExcerptV {
            path: self.path@,
            start_row: self.start_row,
            end_row: self.end_row,
            primary_start: self.primary_start,
            primary_end: self.primary_end,
            group_keys: self.group_keys@,
            gap_before: self.gap_before,
        }
    }
}

/// The values of a sequence of excerpts.
pub open spec fn excerpt_views(s: Seq<Excerpt>) -> Seq<ExcerptV> {
    s.map_values(|e: Excerpt| e@)
}

/// The first context row of a group: its anchor start, widened upward by
/// the configured context lines and clipped to the document.
pub open spec fn ctx_first_row(d: Seq<u32>, g: GroupV, k: u32) -> int {
    clip_row(d, group_anchor(g).start.row - k)
}

/// The last context row of a group: its anchor end, widened downward by
/// the configured context lines and clipped to the document.
pub open spec fn ctx_last_row(d: Seq<u32>, g: GroupV, k: u32) -> int {
    clip_row(d, group_anchor(g).end.row + k)
}

/// The key that names a group within its path.
pub open spec fn key_of(g: GroupV) -> GroupKey {
    GroupKey { producer: g.producer, group_id: g.group_id }
}

/// A new excerpt opened for a single group.
pub open spec fn fresh_excerpt(
    path: Seq<u8>,
    g: GroupV,
    d: Seq<u32>,
    cfg: ProjectionConfig,
    gap: bool,
) -> ExcerptV {
    ExcerptV {
        path,
        start_row: ctx_first_row(d, g, cfg.context_lines) as u32,
        end_row: ctx_last_row(d, g, cfg.context_lines) as u32,
        primary_start: clip_point(d, group_anchor(g).start),
        primary_end: clip_point(d, group_anchor(g).end),
        group_keys: seq![key_of(g)],
        gap_before: gap,
    }
}

/// The open excerpt extended over one more group: the end row grows to
/// cover the group's context and the group joins the member list.
pub open spec fn merge_into(acc: ExcerptV, g: GroupV, d: Seq<u32>, cfg: ProjectionConfig) -> ExcerptV {
    ExcerptV {
        end_row: if ctx_last_row(d, g, cfg.context_lines) > acc.end_row as int {
            ctx_last_row(d, g, cfg.context_lines) as u32
        } else {
            acc.end_row
        },
        group_keys: acc.group_keys.push(key_of(g)),
        ..acc
    }
}

/// Whether the next group's context belongs to the open excerpt: it starts
/// at, inside, or within the adjacency threshold of the accumulated range.
pub open spec fn joins_acc(acc: ExcerptV, g: GroupV, d: Seq<u32>, cfg: ProjectionConfig) -> bool {
    ctx_first_row(d, g, cfg.context_lines) <= acc.end_row + cfg.merge_adjacency + 1
}

/// The walk over the remaining sorted groups with one open excerpt: each
/// group either joins the open excerpt or closes it and opens a new one,
/// marked as preceded by a gap.
pub open spec fn merge_from(
    path: Seq<u8>,
    gs: Seq<GroupV>,
    acc: ExcerptV,
    d: Seq<u32>,
    cfg: ProjectionConfig,
) -> Seq<ExcerptV>
    decreases gs.len(),
{
    if gs.len() == 0 {
        seq![acc]
    } else if joins_acc(acc, gs[0], d, cfg) {
        merge_from(path, gs.drop_first(), merge_into(acc, gs[0], d, cfg), d, cfg)
    } else {
        seq![acc] + merge_from(path, gs.drop_first(), fresh_excerpt(path, gs[0], d, cfg, true), d, cfg)
    }
}

/// The excerpts of one path: the merge walk over its sorted groups, or
/// nothing when the path has no groups.
pub open spec fn path_excerpts(
    path: Seq<u8>,
    gs: Seq<GroupV>,
    d: Seq<u32>,
    cfg: ProjectionConfig,
) -> Seq<ExcerptV> {
    if gs.len() == 0 {
        Seq::empty()
    } else {
        merge_from(path, gs.drop_first(), fresh_excerpt(path, gs[0], d, cfg, false), d, cfg)
    }
}

/// Every group anchor is a well-formed range.
pub open spec fn anchors_valid(gs: Seq<GroupV>) -> bool {
    forall|i: int| 0 <= i < gs.len() ==> point_le(
        group_anchor(#[trigger] gs[i]).start,
        group_anchor(gs[i]).end,
    )
}

/// A position that lies inside the document.
pub open spec fn point_within(d: Seq<u32>, p: Point) -> bool {
    p.row as int <= doc_max_row(d) && p.column <= doc_line_len(d, p.row as int)
}

/// A structurally sound excerpt for document `d`: a non-empty row range
/// inside the document, with its primary range clipped inside too.
pub open spec fn excerpt_wf(e: ExcerptV, d: Seq<u32>) -> bool {
    &&& e.start_row <= e.end_row
    &&& e.end_row as int <= doc_max_row(d)
    &&& point_within(d, e.primary_start)
    &&& point_within(d, e.primary_end)
}

/// Excerpts strictly increasing by position and non-overlapping: each one
/// is a forward range and ends strictly before the next one starts.
pub open spec fn excerpts_ordered(s: Seq<ExcerptV>) -> bool {
    &&& forall|i: int| 0 <= i < s.len() ==> (#[trigger] s[i]).start_row <= s[i].end_row
    &&& forall|i: int| 0 <= i < s.len() - 1 ==> (#[trigger] s[i]).end_row < s[i + 1].start_row
}

/// The group keys shown by a run of excerpts, in display order.
pub open spec fn keys_of_excerpts(s: Seq<ExcerptV>) -> Seq<GroupKey>
    decreases s.len(),
{
    if s.len() == 0 {
        Seq::empty()
    } else {
        s[0].group_keys + keys_of_excerpts(s.drop_first())
    }
}

/// The keys of a run of groups, in order.
pub open spec fn keys_of_groups(gs: Seq<GroupV>) -> Seq<GroupKey> {
    gs.map_values(|g: GroupV| key_of(g))
}

/// The merge walk accounts for every group exactly once: the keys its
/// excerpts show are the open excerpt's keys followed by the keys of the
/// remaining groups, in order.
pub proof fn lemma_merge_from_keys(
    path: Seq<u8>,
    gs: Seq<GroupV>,
    acc: ExcerptV,
    d: Seq<u32>,
    cfg: ProjectionConfig,
)
    ensures
        keys_of_excerpts(merge_from(path, gs, acc, d, cfg)) == acc.group_keys + keys_of_groups(gs),
    decreases gs.len(),
{
    if gs.len() == 0 {
        assert(seq![acc].drop_first() =~= Seq::<ExcerptV>::empty());
        assert(keys_of_excerpts(Seq::<ExcerptV>::empty()) =~= Seq::<GroupKey>::empty());
        assert(keys_of_excerpts(merge_from(path, gs, acc, d, cfg)) =~= acc.group_keys
            + keys_of_groups(gs));
    } else {
        let rest = gs.drop_first();
        if joins_acc(acc, gs[0], d, cfg) {
            let acc2 = merge_into(acc, gs[0], d, cfg);
            lemma_merge_from_keys(path, rest, acc2, d, cfg);
            assert(acc2.group_keys + keys_of_groups(rest) =~= acc.group_keys + keys_of_groups(
                gs,
            )) by {
                assert(keys_of_groups(gs)[0] == key_of(gs[0]));
                assert(forall|m: int| 0 <= m < rest.len() ==> keys_of_groups(rest)[m]
                    == keys_of_groups(gs)[m + 1]);
            }
        } else {
            let acc2 = fresh_excerpt(path, gs[0], d, cfg, true);
            lemma_merge_from_keys(path, rest, acc2, d, cfg);
            let tail = merge_from(path, rest, acc2, d, cfg);
            assert((seq![acc] + tail)[0] == acc);
            assert((seq![acc] + tail).drop_first() =~= tail);
            assert(acc.group_keys + (acc2.group_keys + keys_of_groups(rest)) =~= acc.group_keys
                + keys_of_groups(gs)) by {
                assert(keys_of_groups(gs)[0] == key_of(gs[0]));
                assert(forall|m: int| 0 <= m < rest.len() ==> keys_of_groups(rest)[m]
                    == keys_of_groups(gs)[m + 1]);
            }
        }
    }
}

/// A path's excerpts show exactly the keys of its groups, in order: every
/// group is displayed by exactly one excerpt.
pub proof fn lemma_path_excerpts_keys(
    path: Seq<u8>,
    gs: Seq<GroupV>,
    d: Seq<u32>,
    cfg: ProjectionConfig,
)
    ensures
        keys_of_excerpts(path_excerpts(path, gs, d, cfg)) == keys_of_groups(gs),
{
    if gs.len() == 0 {
        assert(keys_of_excerpts(path_excerpts(path, gs, d, cfg)) =~= keys_of_groups(gs));
    } else {
        let acc = fresh_excerpt(path, gs[0], d, cfg, false);
        lemma_merge_from_keys(path, gs.drop_first(), acc, d, cfg);
        assert(acc.group_keys + keys_of_groups(gs.drop_first()) =~= keys_of_groups(gs)) by {
            assert(keys_of_groups(gs)[0] == key_of(gs[0]));
            assert(forall|m: int| 0 <= m < gs.drop_first().len() ==> keys_of_groups(
                gs.drop_first(),
            )[m] == keys_of_groups(gs)[m + 1]);
        }
    }
}

/// A new excerpt stays within the document and is a forward range.
pub proof fn lemma_fresh_excerpt_wf(
    path: Seq<u8>,
    g: GroupV,
    d: Seq<u32>,
    cfg: ProjectionConfig,
    gap: bool,
)
    requires
        1 <= d.len() <= 0x1_0000_0000,
        point_le(group_anchor(g).start, group_anchor(g).end),
    ensures
        excerpt_wf(fresh_excerpt(path, g, d, cfg, gap), d),
{
    lemma_clip_point_in_bounds(d, group_anchor(g).start);
    lemma_clip_point_in_bounds(d, group_anchor(g).end);
}

/// The merge walk emits ordered, in-bounds excerpts whose first element
/// starts where the open excerpt starts.
pub proof fn lemma_merge_from_ordered(
    path: Seq<u8>,
    gs: Seq<GroupV>,
    acc: ExcerptV,
    d: Seq<u32>,
    cfg: ProjectionConfig,
)
    requires
        1 <= d.len() <= 0x1_0000_0000,
        anchors_valid(gs),
        excerpt_wf(acc, d),
    ensures
        merge_from(path, gs, acc, d, cfg).len() >= 1,
        merge_from(path, gs, acc, d, cfg)[0].start_row == acc.start_row,
        merge_from(path, gs, acc, d, cfg)[0].gap_before == acc.gap_before,
        excerpts_ordered(merge_from(path, gs, acc, d, cfg)),
        forall|i: int| 0 <= i < merge_from(path, gs, acc, d, cfg).len() ==> excerpt_wf(
            #[trigger] merge_from(path, gs, acc, d, cfg)[i],
            d,
        ),
        forall|i: int| 1 <= i < merge_from(path, gs, acc, d, cfg).len() ==> (
        #[trigger] merge_from(path, gs, acc, d, cfg)[i]).gap_before,
    decreases gs.len(),
{
    if gs.len() == 0 {
    } else {
        let rest = gs.drop_first();
        assert(anchors_valid(rest)) by {
            assert(forall|i: int| 0 <= i < rest.len() ==> rest[i] == gs[i + 1]);
        }
        assert(point_le(group_anchor(gs[0]).start, group_anchor(gs[0]).end));
        if joins_acc(acc, gs[0], d, cfg) {
            let acc2 = merge_into(acc, gs[0], d, cfg);
            assert(excerpt_wf(acc2, d));
            lemma_merge_from_ordered(path, rest, acc2, d, cfg);
        } else {
            let acc2 = fresh_excerpt(path, gs[0], d, cfg, true);
            lemma_fresh_excerpt_wf(path, gs[0], d, cfg, true);
            lemma_merge_from_ordered(path, rest, acc2, d, cfg);
            let tail = merge_from(path, rest, acc2, d, cfg);
            let out = seq![acc] + tail;
            assert(out[0] == acc);
            assert(acc.end_row < acc2.start_row);
            assert forall|i: int| 0 <= i < out.len() - 1 implies (#[trigger] out[i]).end_row
                < out[i + 1].start_row by {
                if i == 0 {
                    assert(out[1] == tail[0]);
                } else {
                    assert(out[i] == tail[i - 1]);
                    assert(out[i + 1] == tail[i]);
                }
            }
        }
    }
}

/// The ordering invariant of the projector: the excerpts of a path are
/// strictly increasing by start position, non-overlapping, forward ranges.
pub proof fn lemma_path_excerpts_ordered(
    path: Seq<u8>,
    gs: Seq<GroupV>,
    d: Seq<u32>,
    cfg: ProjectionConfig,
)
    requires
        1 <= d.len() <= 0x1_0000_0000,
        anchors_valid(gs),
    ensures
        excerpts_ordered(path_excerpts(path, gs, d, cfg)),
        forall|i: int| 0 <= i < path_excerpts(path, gs, d, cfg).len() ==> excerpt_wf(
            #[trigger] path_excerpts(path, gs, d, cfg)[i],
            d,
        ),
        path_excerpts(path, gs, d, cfg).len() > 0 ==> !path_excerpts(path, gs, d, cfg)[0].gap_before,
        forall|i: int| 1 <= i < path_excerpts(path, gs, d, cfg).len() ==> (
        #[trigger] path_excerpts(path, gs, d, cfg)[i]).gap_before,
{
    if gs.len() > 0 {
        lemma_fresh_excerpt_wf(path, gs[0], d, cfg, false);
        assert(anchors_valid(gs.drop_first())) by {
            assert(forall|i: int| 0 <= i < gs.drop_first().len() ==> gs.drop_first()[i] == gs[i
                + 1]);
        }
        lemma_merge_from_ordered(path, gs.drop_first(), fresh_excerpt(path, gs[0], d, cfg, false),
            d, cfg);
    }
}

impl Excerpt {
    /// A fresh excerpt equal to this one.
    pub fn duplicate(&self) -> (out: Excerpt)
        ensures
            out@ == self@,
    {
        let mut keys: Vec<GroupKey> = Vec::new();
        let mut i: usize = 0;
        while i < self.group_keys.len()
            invariant
                i <= self.group_keys.len(),
                keys@ == self.group_keys@.take(i as int),
            decreases self.group_keys.len() - i,
        {
            keys.push(self.group_keys[i]);
            proof {
                assert(keys@ =~= self.group_keys@.take(i + 1));
            }
            i = i + 1;
        }
        proof {
            assert(self.group_keys@.take(self.group_keys@.len() as int) =~= self.group_keys@);
        }
        let out = Excerpt {
            path: self.path.duplicate(),
            start_row: self.start_row,
            end_row: self.end_row,
            primary_start: self.primary_start,
            primary_end: self.primary_end,
            group_keys: keys,
            gap_before: self.gap_before,
        };
        proof {
            assert(out@ =~= self@);
        }
        out
    }
}

/// Opens a new excerpt for one group.
#[verifier::loop_isolation(false)]
fn fresh_excerpt_exec(
    path: &PathKey,
    g: &DiagnosticGroup,
    doc: &Document,
    cfg: ProjectionConfig,
    gap: bool,
) -> (out: Excerpt)
    requires
        doc.wf(),
        group_wf(g@),
        point_le(group_anchor(g@).start, group_anchor(g@).end),
    ensures
        out@ == fresh_excerpt(path@, g@, doc@, cfg, gap),
{
    let anchor_start = g.anchor().start;
    let anchor_end = g.anchor().end;
    let max = doc.max_row();
    let mut first: u32 = if anchor_start.row >= cfg.context_lines {
        anchor_start.row - cfg.context_lines
    } else {
        0
    };
    if first > max {
        first = max;
    }
    let last_wide: u64 = anchor_end.row as u64 + cfg.context_lines as u64;
    let last: u32 = if last_wide > max as u64 {
        max
    } else {
        last_wide as u32
    };
    proof {
        assert(first as int == ctx_first_row(doc@, g@, cfg.context_lines));
        assert(last as int == ctx_last_row(doc@, g@, cfg.context_lines));
    }
    let mut keys: Vec<GroupKey> = Vec::new();
    keys.push(g.key());
    let out = Excerpt {
        path: path.duplicate(),
        start_row: first,
        end_row: last,
        primary_start: doc.clip(anchor_start),
        primary_end: doc.clip(anchor_end),
        group_keys: keys,
        gap_before: gap,
    };
    proof {
        assert(out@ =~= fresh_excerpt(path@, g@, doc@, cfg, gap));
    }
    out
}

/// Builds the excerpts of one path from its sorted groups.
#[verifier::loop_isolation(false)]
pub fn excerpts_for_path(
    path: &PathKey,
    groups: &Vec<DiagnosticGroup>,
    doc: &Document,
    cfg: ProjectionConfig,
) -> (out: Vec<Excerpt>)
    requires
        doc.wf(),
        forall|i: int| 0 <= i < groups@.len() ==> group_wf((#[trigger] groups@[i])@),
        anchors_valid(group_views(groups@)),
    ensures
        excerpt_views(out@) == path_excerpts(path@, group_views(groups@), doc@, cfg),
{
    let ghost gv = group_views(groups@);
    proof {
        assert(forall|i: int| 0 <= i < groups@.len() ==> gv[i] == (#[trigger] groups@[i])@);
    }
    let mut out: Vec<Excerpt> = Vec::new();
    if groups.len() == 0 {
        proof {
            assert(excerpt_views(out@) =~= path_excerpts(path@, gv, doc@, cfg));
        }
        return out;
    }
    let mut acc = fresh_excerpt_exec(path, &groups[0], doc, cfg, false);
    let mut i: usize = 1;
    while i < groups.len()
        invariant
            1 <= i <= groups.len(),
            path_excerpts(path@, gv, doc@, cfg) == excerpt_views(out@) + merge_from(
                path@,
                gv.skip(i as int),
                acc@,
                doc@,
                cfg,
            ),
        decreases groups.len() - i,
    {
        let g = &groups[i];
        proof {
            assert(gv.skip(i as int)[0] == gv[i as int]);
            assert(gv.skip(i as int).drop_first() =~= gv.skip(i + 1));
            assert(point_le(group_anchor(gv[i as int]).start, group_anchor(gv[i as int]).end));
        }
        let max = doc.max_row();
        let anchor_start_row = g.anchor().start.row;
        let mut first: u32 = if anchor_start_row >= cfg.context_lines {
            anchor_start_row - cfg.context_lines
        } else {
            0
        };
        if first > max {
            first = max;
        }
        proof {
            assert(first as int == ctx_first_row(doc@, gv[i as int], cfg.context_lines));
        }
        if first as u64 <= acc.end_row as u64 + cfg.merge_adjacency as u64 + 1 {
            // The group joins the open excerpt.
            let anchor_end_row = g.anchor().end.row;
            let last_wide: u64 = anchor_end_row as u64 + cfg.context_lines as u64;
            let last: u32 = if last_wide > max as u64 {
                max
            } else {
                last_wide as u32
            };
            proof {
                assert(last as int == ctx_last_row(doc@, gv[i as int], cfg.context_lines));
                assert(joins_acc(acc@, gv[i as int], doc@, cfg));
            }
            let ghost acc_old = acc@;
            if last > acc.end_row {
                acc.end_row = last;
            }
            acc.group_keys.push(g.key());
            proof {
                assert(acc@ =~= merge_into(acc_old, gv[i as int], doc@, cfg));
            }
        } else {
            // The group starts a new excerpt after a gap.
            proof {
                assert(!joins_acc(acc@, gv[i as int], doc@, cfg));
            }
            let closed = acc;
            acc = fresh_excerpt_exec(path, g, doc, cfg, true);
            out.push(closed);
            proof {
                assert(excerpt_views(out@) =~= excerpt_views(out@.drop_last()) + seq![
                    out@.last()@,
                ]);
            }
        }
        i = i + 1;
    }
    proof {
        assert(gv.skip(groups@.len() as int) =~= Seq::<GroupV>::empty());
    }
    out.push(acc);
    proof {
        assert(excerpt_views(out@) =~= excerpt_views(out@.drop_last()) + seq![out@.last()@]);
        assert(excerpt_views(out@) =~= path_excerpts(path@, gv, doc@, cfg));
    }
    out
}

} // verus!
