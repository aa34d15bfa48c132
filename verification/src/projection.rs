use vstd::prelude::*;
use crate::config::ProjectionConfig;
use crate::document::Document;
use crate::excerpt::{Excerpt, ExcerptV, excerpt_views, excerpt_wf, excerpts_for_path,
    excerpts_ordered, keys_of_excerpts, keys_of_groups, path_excerpts,
    lemma_path_excerpts_keys, lemma_path_excerpts_ordered};
use crate::group::{DiagnosticGroup, GroupV, group_views, group_wf, groups_for_entry,
    groups_of_entries, groups_sorted, path_groups, sort_groups, sort_groups_exec,
    lemma_groups_of_entries_wf, lemma_path_groups_wf, lemma_path_groups_anchors_valid,
    lemma_sort_groups_membership, lemma_sort_groups_sorted};
use crate::ledger::{Ledger, LedgerEntryV, entries_valid};
use crate::pathname::PathKey;

verus! {

/// One known document: the line model the projector clips against, keyed by
/// path.
#[derive(Debug)]
pub struct DocEntry {
    pub path: PathKey,
    pub doc: Document,
}

/// The mathematical value of a known document.
#[verifier::ext_equal]
pub struct DocEntryV {
    pub path: Seq<u8>,
    pub lines: Seq<u32>,
}

impl View for DocEntry {
    type V = DocEntryV;

    open spec fn view(&self) -> DocEntryV {
        DocEntryV { path: self.path@, lines: self.doc@ }
    }
}

/// The values of the document table.
pub open spec fn docs_views(s: Seq<DocEntry>) -> Seq<DocEntryV> {
    s.map_values(|e: DocEntry| e@)
}

/// Every known document is usable: at least one line, and each row index
/// fits the position type.
pub open spec fn docs_wf(docs: Seq<DocEntryV>) -> bool {
    forall|i: int| 0 <= i < docs.len() ==> 1 <= (#[trigger] docs[i]).lines.len() <= 0x1_0000_0000
}

/// The lines of the first document stored under `p`, if any.
pub open spec fn doc_lookup(docs: Seq<DocEntryV>, p: Seq<u8>) -> Option<Seq<u32>>
    decreases docs.len(),
{
    if docs.len() == 0 {
        Option::None
    } else if docs[0].path == p {
        Option::Some(docs[0].lines)
    } else {
        doc_lookup(docs.drop_first(), p)
    }
}

/// The document table after a document is stored: the entry under the same
/// path is replaced, or the new entry is appended.
pub open spec fn docs_put(docs: Seq<DocEntryV>, e: DocEntryV) -> Seq<DocEntryV>
    decreases docs.len(),
{
    if docs.len() == 0 {
        seq![e]
    } else if docs[0].path == e.path {
        seq![e] + docs.drop_first()
    } else {
        seq![docs[0]] + docs_put(docs.drop_first(), e)
    }
}

/// Storing a usable document keeps the table usable.
pub proof fn lemma_docs_put_wf(docs: Seq<DocEntryV>, e: DocEntryV)
    requires
        docs_wf(docs),
        1 <= e.lines.len() <= 0x1_0000_0000,
    ensures
        docs_wf(docs_put(docs, e)),
    decreases docs.len(),
{
    if docs.len() > 0 && docs[0].path != e.path {
        assert(docs_wf(docs.drop_first())) by {
            assert(forall|i: int| 0 <= i < docs.drop_first().len() ==> docs.drop_first()[i]
                == docs[i + 1]);
        }
        lemma_docs_put_wf(docs.drop_first(), e);
        let out = seq![docs[0]] + docs_put(docs.drop_first(), e);
        assert(forall|i: int| 1 <= i < out.len() ==> out[i] == docs_put(docs.drop_first(), e)[i
            - 1]);
    }
}

/// The derived display state of one path: its sorted diagnostic groups and
/// the excerpts they project onto.  Both are recomputed wholesale from the
/// ledger; they are never patched in place.
#[derive(Debug)]
pub struct PathState {
    pub path: PathKey,
    pub groups: Vec<DiagnosticGroup>,
    pub excerpts: Vec<Excerpt>,
}

/// The mathematical value of a path state.
#[verifier::ext_equal]
pub struct PathStateV {
    pub path: Seq<u8>,
    pub groups: Seq<GroupV>,
    pub excerpts: Seq<ExcerptV>,
}

impl View for PathState {
    type V = PathStateV;

    open spec fn view(&self) -> PathStateV {
        PathStateV {
            path: self.path@,
            groups: group_views(self.groups@),
            excerpts: excerpt_views(self.excerpts@),
        }
    }
}

/// The values of a sequence of path states.
pub open spec fn state_views(s: Seq<PathState>) -> Seq<PathStateV> {
    s.map_values(|st: PathState| st@)
}

/// How many leading entries belong to path `p`.
pub open spec fn count_run(es: Seq<LedgerEntryV>, p: Seq<u8>) -> int
    decreases es.len(),
{
    if es.len() == 0 || es[0].path != p {
        0
    } else {
        1 + count_run(es.drop_first(), p)
    }
}

/// The leading run is a well-formed prefix: all of it lies on the path, and
/// it ends where the path changes.
pub proof fn lemma_count_run_bounds(es: Seq<LedgerEntryV>, p: Seq<u8>)
    ensures
        0 <= count_run(es, p) <= es.len(),
        es.len() > 0 && es[0].path == p ==> count_run(es, p) >= 1,
        forall|m: int| 0 <= m < count_run(es, p) ==> (#[trigger] es[m]).path == p,
        count_run(es, p) < es.len() ==> es[count_run(es, p)].path != p,
    decreases es.len(),
{
    if es.len() > 0 && es[0].path == p {
        lemma_count_run_bounds(es.drop_first(), p);
        let rest = es.drop_first();
        let n = count_run(es, p);
        assert forall|m: int| 0 <= m < n implies (#[trigger] es[m]).path == p by {
            if m > 0 {
                assert(rest[m - 1].path == p);
            }
        }
        if n < es.len() {
            assert(rest[n - 1].path != p);
        }
    }
}

/// The projection: the path states derived from the ledger alone, one per
/// distinct path in key order.  A path with no known document keeps its
/// groups but projects no excerpts.
pub open spec fn project_entries(
    es: Seq<LedgerEntryV>,
    docs: Seq<DocEntryV>,
    cfg: ProjectionConfig,
) -> Seq<PathStateV>
    decreases es.len(),
    via project_entries_dec
{
    if es.len() == 0 {
        Seq::empty()
    } else {
        let p = es[0].path;
        let n = count_run(es, p);
        let gs = path_groups(es.take(n));
        let st = PathStateV {
            path: p,
            groups: gs,
            excerpts: match doc_lookup(docs, p) {
                Option::Some(d) => path_excerpts(p, gs, d, cfg),
                Option::None => Seq::empty(),
            },
        };
        seq![st] + project_entries(es.skip(n), docs, cfg)
    }
}

#[via_fn]
proof fn project_entries_dec(es: Seq<LedgerEntryV>, docs: Seq<DocEntryV>, cfg: ProjectionConfig) {
    if es.len() > 0 {
        lemma_count_run_bounds(es, es[0].path);
    }
}

/// All excerpts of the projection, path by path.
pub open spec fn states_excerpts(states: Seq<PathStateV>) -> Seq<ExcerptV>
    decreases states.len(),
{
    if states.len() == 0 {
        Seq::empty()
    } else {
        states[0].excerpts + states_excerpts(states.drop_first())
    }
}

/// The first state stored for `p`, if any.
pub open spec fn state_lookup(states: Seq<PathStateV>, p: Seq<u8>) -> Option<PathStateV>
    decreases states.len(),
{
    if states.len() == 0 {
        Option::None
    } else if states[0].path == p {
        Option::Some(states[0])
    } else {
        state_lookup(states.drop_first(), p)
    }
}

/// A displayable path state: groups in display order; excerpts ordered,
/// non-overlapping, and carrying the collapsed-context marker exactly on
/// every excerpt after the first (the only places where rows are skipped).
pub open spec fn state_display_wf(st: PathStateV) -> bool {
    &&& excerpts_ordered(st.excerpts)
    &&& groups_sorted(st.groups)
    &&& st.excerpts.len() > 0 ==> !st.excerpts[0].gap_before
    &&& forall|m: int| 1 <= m < st.excerpts.len() ==> (#[trigger] st.excerpts[m]).gap_before
}

/// Every derived path state is displayable.
#[verifier::rlimit(50)]
pub proof fn lemma_project_entries_display(
    es: Seq<LedgerEntryV>,
    docs: Seq<DocEntryV>,
    cfg: ProjectionConfig,
)
    requires
        entries_valid(es),
        docs_wf(docs),
    ensures
        forall|k: int| 0 <= k < project_entries(es, docs, cfg).len() ==> state_display_wf(
            #[trigger] project_entries(es, docs, cfg)[k],
        ),
    decreases es.len(),
{
    if es.len() > 0 {
        let p = es[0].path;
        let n = count_run(es, p);
        lemma_count_run_bounds(es, p);
        let run = es.take(n);
        let gs = path_groups(run);
        assert(entries_valid(run)) by {
            assert(forall|i: int| 0 <= i < run.len() ==> run[i] == es[i]);
        }
        lemma_path_groups_anchors_valid(run);
        lemma_sort_groups_sorted(groups_of_entries(run));
        lemma_doc_lookup_wf(docs, p);
        match doc_lookup(docs, p) {
            Option::Some(d) => {
                lemma_path_excerpts_ordered(p, gs, d, cfg);
            },
            Option::None => {
            },
        }
        assert(state_display_wf(project_entries(es, docs, cfg)[0]));
        assert(entries_valid(es.skip(n))) by {
            assert(forall|i: int| 0 <= i < es.skip(n).len() ==> es.skip(n)[i] == es[i + n]);
        }
        lemma_project_entries_display(es.skip(n), docs, cfg);
        let rest = project_entries(es.skip(n), docs, cfg);
        assert forall|k: int| 0 <= k < project_entries(es, docs, cfg).len() implies
        state_display_wf(#[trigger] project_entries(es, docs, cfg)[k]) by {
            if k > 0 {
                assert(project_entries(es, docs, cfg)[k] == rest[k - 1]);
            }
        }
    }
}

/// Every displayed path with a known document accounts for its groups
/// exactly: the keys its excerpts show are its groups' keys, in order, so
/// each group is displayed by exactly one excerpt.
pub proof fn lemma_project_entries_keys(
    es: Seq<LedgerEntryV>,
    docs: Seq<DocEntryV>,
    cfg: ProjectionConfig,
)
    ensures
        forall|k: int| 0 <= k < project_entries(es, docs, cfg).len() && doc_lookup(
            docs,
            (#[trigger] project_entries(es, docs, cfg)[k]).path,
        ) is Some ==> keys_of_excerpts(project_entries(es, docs, cfg)[k].excerpts)
            == keys_of_groups(project_entries(es, docs, cfg)[k].groups),
    decreases es.len(),
{
    if es.len() > 0 {
        let p = es[0].path;
        let n = count_run(es, p);
        lemma_count_run_bounds(es, p);
        let gs = path_groups(es.take(n));
        match doc_lookup(docs, p) {
            Option::Some(d) => {
                lemma_path_excerpts_keys(p, gs, d, cfg);
            },
            Option::None => {
            },
        }
        lemma_project_entries_keys(es.skip(n), docs, cfg);
        let rest = project_entries(es.skip(n), docs, cfg);
        assert forall|k: int| 0 <= k < project_entries(es, docs, cfg).len() && doc_lookup(
            docs,
            (#[trigger] project_entries(es, docs, cfg)[k]).path,
        ) is Some implies keys_of_excerpts(project_entries(es, docs, cfg)[k].excerpts)
            == keys_of_groups(project_entries(es, docs, cfg)[k].groups) by {
            if k > 0 {
                assert(project_entries(es, docs, cfg)[k] == rest[k - 1]);
            }
        }
    }
}

/// What recomputation guarantees of every derived path state: its excerpts
/// are ordered and non-overlapping, they lie inside the path's document
/// (a path without a document projects none), and its path is the path of
/// some ledger entry.
pub proof fn lemma_project_entries_sound(
    es: Seq<LedgerEntryV>,
    docs: Seq<DocEntryV>,
    cfg: ProjectionConfig,
)
    requires
        entries_valid(es),
        docs_wf(docs),
    ensures
        forall|k: int| 0 <= k < project_entries(es, docs, cfg).len() ==> excerpts_ordered(
            (#[trigger] project_entries(es, docs, cfg)[k]).excerpts,
        ),
        forall|k: int| 0 <= k < project_entries(es, docs, cfg).len() ==> match doc_lookup(
            docs,
            (#[trigger] project_entries(es, docs, cfg)[k]).path,
        ) {
            Option::Some(d) => forall|m: int| 0 <= m < project_entries(es, docs, cfg)[k].excerpts.len()
                ==> excerpt_wf(#[trigger] project_entries(es, docs, cfg)[k].excerpts[m], d),
            Option::None => project_entries(es, docs, cfg)[k].excerpts.len() == 0,
        },
        forall|k: int| 0 <= k < project_entries(es, docs, cfg).len() ==> exists|i: int|
            0 <= i < es.len() && (#[trigger] es[i]).path == (#[trigger] project_entries(
                es,
                docs,
                cfg,
            )[k]).path,
    decreases es.len(),
{
    if es.len() > 0 {
        let p = es[0].path;
        let n = count_run(es, p);
        lemma_count_run_bounds(es, p);
        let run = es.take(n);
        let gs = path_groups(run);
        assert(entries_valid(run)) by {
            assert(forall|i: int| 0 <= i < run.len() ==> run[i] == es[i]);
        }
        lemma_path_groups_anchors_valid(run);
        lemma_doc_lookup_wf(docs, p);
        match doc_lookup(docs, p) {
            Option::Some(d) => {
                lemma_path_excerpts_ordered(p, gs, d, cfg);
            },
            Option::None => {
            },
        }
        assert(entries_valid(es.skip(n))) by {
            assert(forall|i: int| 0 <= i < es.skip(n).len() ==> es.skip(n)[i] == es[i + n]);
        }
        lemma_project_entries_sound(es.skip(n), docs, cfg);
        let head = project_entries(es, docs, cfg)[0];
        let rest = project_entries(es.skip(n), docs, cfg);
        assert(gs.len() == 0 ==> path_excerpts(p, gs, Seq::<u32>::empty(), cfg).len() == 0);
        assert forall|k: int| 0 <= k < project_entries(es, docs, cfg).len() implies (
        excerpts_ordered((#[trigger] project_entries(es, docs, cfg)[k]).excerpts) && (match
        doc_lookup(docs, project_entries(es, docs, cfg)[k].path) {
            Option::Some(d) => forall|m: int| 0 <= m < project_entries(es, docs, cfg)[k].excerpts.len()
                ==> excerpt_wf(#[trigger] project_entries(es, docs, cfg)[k].excerpts[m], d),
            Option::None => project_entries(es, docs, cfg)[k].excerpts.len() == 0,
        }) && (exists|i: int| 0 <= i < es.len() && (#[trigger] es[i]).path == project_entries(
            es,
            docs,
            cfg,
        )[k].path)) by {
            assert(project_entries(es, docs, cfg) == seq![project_entries(es, docs, cfg)[0]]
                + project_entries(es.skip(n), docs, cfg));
            if k == 0 {
                assert(project_entries(es, docs, cfg)[0].path == p);
                assert(es[0].path == p);
            } else {
                assert(project_entries(es, docs, cfg)[k] == rest[k - 1]);
                let i = choose|i: int| 0 <= i < es.skip(n).len() && (#[trigger] es.skip(n)[i]).path
                    == rest[k - 1].path;
                assert(es[i + n].path == rest[k - 1].path);
            }
        }
    }
}

/// A found document is usable.
proof fn lemma_doc_lookup_wf(docs: Seq<DocEntryV>, p: Seq<u8>)
    requires
        docs_wf(docs),
    ensures
        match doc_lookup(docs, p) {
            Option::Some(d) => 1 <= d.len() <= 0x1_0000_0000,
            Option::None => true,
        },
    decreases docs.len(),
{
    if docs.len() > 0 && docs[0].path != p {
        assert(docs_wf(docs.drop_first())) by {
            assert(forall|i: int| 0 <= i < docs.drop_first().len() ==> docs.drop_first()[i]
                == docs[i + 1]);
        }
        lemma_doc_lookup_wf(docs.drop_first(), p);
    }
}

/// Finds the document stored for a path.
fn doc_find<'a>(docs: &'a Vec<DocEntry>, p: &PathKey) -> (r: Option<&'a Document>)
    ensures
        match r {
            Option::Some(d) => doc_lookup(docs_views(docs@), p@) == Option::Some(d@),
            Option::None => doc_lookup(docs_views(docs@), p@) == Option::<Seq<u32>>::None,
        },
{
    let ghost dv = docs_views(docs@);
    let mut i: usize = 0;
    proof {
        assert(dv.skip(0) =~= dv);
    }
    while i < docs.len()
        invariant
            i <= docs.len(),
            dv == docs_views(docs@),
            doc_lookup(dv, p@) == doc_lookup(dv.skip(i as int), p@),
        decreases docs.len() - i,
    {
        proof {
            assert(dv.skip(i as int)[0] == dv[i as int]);
            assert(dv[i as int] == (#[trigger] docs@[i as int])@);
            assert(dv.skip(i as int).drop_first() =~= dv.skip(i + 1));
        }
        if docs[i].path.same_as(p) {
            return Option::Some(&docs[i].doc);
        }
        i = i + 1;
    }
    proof {
        assert(dv.skip(docs@.len() as int) =~= Seq::<DocEntryV>::empty());
    }
    Option::None
}

/// Recomputes the whole projection from the ledger and the known documents.
/// The result is a pure function of their current contents: it keeps no
/// memory of any earlier projection.
#[verifier::loop_isolation(false)]
pub fn compute_states(ledger: &Ledger, docs: &Vec<DocEntry>, cfg: ProjectionConfig) -> (out: Vec<
    PathState,
>)
    requires
        ledger.wf(),
        entries_valid(ledger@),
        docs_wf(docs_views(docs@)),
    ensures
        state_views(out@) == project_entries(ledger@, docs_views(docs@), cfg),
{
    let ghost lv = ledger@;
    let ghost dv = docs_views(docs@);
    let mut out: Vec<PathState> = Vec::new();
    let mut i: usize = 0;
    proof {
        assert(state_views(out@) =~= Seq::<PathStateV>::empty());
        assert(lv.skip(0) =~= lv);
        assert(state_views(out@) + project_entries(lv.skip(0), dv, cfg) =~= project_entries(
            lv,
            dv,
            cfg,
        ));
    }
    while i < ledger.len()
        invariant
            i <= lv.len(),
            project_entries(lv, dv, cfg) == state_views(out@) + project_entries(
                lv.skip(i as int),
                dv,
                cfg,
            ),
        decreases lv.len() - i,
    {
        let ghost suffix = lv.skip(i as int);
        let p = ledger.entry_at(i).path.duplicate();
        proof {
            assert(suffix[0] == lv[i as int]);
            assert(suffix[0].path == p@);
        }
        // Collect the groups of the run of entries that share this path.
        let mut raw: Vec<DiagnosticGroup> = Vec::new();
        let mut j: usize = i;
        proof {
            assert(lv.subrange(i as int, i as int) =~= Seq::<LedgerEntryV>::empty());
            assert(groups_of_entries(Seq::<LedgerEntryV>::empty()) =~= Seq::<GroupV>::empty());
            assert(group_views(raw@) =~= groups_of_entries(lv.subrange(i as int, i as int)));
        }
        while j < ledger.len() && ledger.entry_at(j).path.same_as(&p)
            invariant
                i <= j <= lv.len(),
                forall|m: int| i <= m < j ==> (#[trigger] lv[m]).path == p@,
                group_views(raw@) == groups_of_entries(lv.subrange(i as int, j as int)),
            decreases lv.len() - j,
        {
            let mut more = groups_for_entry(ledger.entry_at(j));
            let ghost more0 = more@;
            proof {
                lemma_groups_concat_step(lv, i as int, j as int);
            }
            let ghost raw0 = raw@;
            raw.append(&mut more);
            proof {
                assert(raw@ == raw0 + more0);
                assert(group_views(raw@) =~= group_views(raw0) + group_views(more0));
                assert(group_views(more0) == crate::group::entry_groups(lv[j as int]));
                assert(group_views(raw@) =~= groups_of_entries(lv.subrange(i as int, j + 1)));
            }
            j = j + 1;
        }
        let ghost n = count_run(suffix, p@);
        proof {
            lemma_count_run_bounds(suffix, p@);
            assert forall|m: int| 0 <= m < j - i implies (#[trigger] suffix[m]).path == p@ by {
                assert(suffix[m] == lv[i + m]);
            }
            if j < lv.len() {
                assert(suffix[j - i].path != p@);
            }
            lemma_count_run_exact(suffix, p@, j - i);
            assert(n == j - i);
            assert(suffix.take(n) =~= lv.subrange(i as int, j as int));
            assert(entries_valid(suffix.take(n))) by {
                assert(forall|m: int| 0 <= m < n ==> suffix.take(n)[m] == lv[i + m]);
            }
            lemma_groups_of_entries_wf(suffix.take(n));
            assert(forall|k: int| 0 <= k < raw@.len() ==> group_wf(#[trigger] group_views(raw@)[k]));
            lemma_path_groups_anchors_valid(suffix.take(n));
        }
        let groups = sort_groups_exec(raw);
        proof {
            assert(group_views(groups@) == path_groups(suffix.take(n)));
            lemma_sort_groups_membership(groups_of_entries(suffix.take(n)));
            lemma_path_groups_wf(suffix.take(n));
            assert forall|k: int| 0 <= k < groups@.len() implies group_wf(
                (#[trigger] groups@[k])@,
            ) by {
                assert(group_views(groups@)[k] == groups@[k]@);
            }
        }
        proof {
            lemma_doc_lookup_wf(dv, p@);
        }
        let excerpts: Vec<Excerpt> = match doc_find(docs, &p) {
            Option::Some(d) => excerpts_for_path(&p, &groups, d, cfg),
            Option::None => Vec::new(),
        };
        let st = PathState { path: p, groups, excerpts };
        let ghost out0 = out@;
        out.push(st);
        proof {
            assert(state_views(out@) =~= state_views(out0).push(st@));
            assert(st@ =~= project_entries(suffix, dv, cfg)[0]);
            assert(project_entries(suffix, dv, cfg) == seq![project_entries(suffix, dv, cfg)[0]]
                + project_entries(suffix.skip(n), dv, cfg));
            assert(suffix.skip(n) =~= lv.skip(i + n));
            assert(state_views(out@) + project_entries(lv.skip(i as int + n), dv, cfg)
                =~= state_views(out0) + project_entries(suffix, dv, cfg));
        }
        i = j;
    }
    proof {
        assert(lv.skip(lv.len() as int) =~= Seq::<LedgerEntryV>::empty());
        assert(state_views(out@) + project_entries(lv.skip(lv.len() as int), dv, cfg)
            =~= state_views(out@));
    }
    out
}

/// All displayed excerpts, across all path states, in display order.
#[verifier::loop_isolation(false)]
pub fn flatten_states(states: &Vec<PathState>) -> (out: Vec<Excerpt>)
    ensures
        excerpt_views(out@) == states_excerpts(state_views(states@)),
{
    let ghost sv = state_views(states@);
    let mut out: Vec<Excerpt> = Vec::new();
    let mut i: usize = 0;
    proof {
        assert(excerpt_views(out@) =~= Seq::<ExcerptV>::empty());
        assert(sv.skip(0) =~= sv);
    }
    while i < states.len()
        invariant
            i <= states.len(),
            excerpt_views(out@) + states_excerpts(sv.skip(i as int)) == states_excerpts(sv),
        decreases states.len() - i,
    {
        proof {
            assert(sv.skip(i as int)[0] == sv[i as int]);
            assert(sv[i as int] == (#[trigger] states@[i as int])@);
            assert(sv.skip(i as int).drop_first() =~= sv.skip(i + 1));
        }
        let ex = &states[i].excerpts;
        let ghost base = excerpt_views(out@);
        let mut j: usize = 0;
        proof {
            assert(base + excerpt_views(ex@).take(0) =~= base);
        }
        while j < ex.len()
            invariant
                j <= ex.len(),
                excerpt_views(out@) == base + excerpt_views(ex@).take(j as int),
            decreases ex.len() - j,
        {
            let dup = ex[j].duplicate();
            let ghost out0 = out@;
            out.push(dup);
            proof {
                assert(out@ == out0.push(dup));
                assert(excerpt_views(out@) =~= excerpt_views(out0).push(dup@));
                assert(dup@ == excerpt_views(ex@)[j as int]);
                assert(excerpt_views(ex@).take(j + 1) =~= excerpt_views(ex@).take(j as int).push(
                    excerpt_views(ex@)[j as int],
                ));
                assert(excerpt_views(out@) =~= base + excerpt_views(ex@).take(j + 1));
            }
            j = j + 1;
        }
        proof {
            assert(excerpt_views(ex@).take(ex@.len() as int) =~= excerpt_views(ex@));
            assert(excerpt_views(out@) + states_excerpts(sv.skip(i + 1)) =~= base + (
            sv[i as int].excerpts + states_excerpts(sv.skip(i + 1))));
        }
        i = i + 1;
    }
    proof {
        assert(sv.skip(states@.len() as int) =~= Seq::<PathStateV>::empty());
    }
    out
}

/// A run's length is pinned by its shape: everything before `n` lies on the
/// path and entry `n` (if any) does not.
proof fn lemma_count_run_exact(es: Seq<LedgerEntryV>, p: Seq<u8>, n: int)
    requires
        0 <= n <= es.len(),
        forall|m: int| 0 <= m < n ==> (#[trigger] es[m]).path == p,
        n < es.len() ==> es[n].path != p,
    ensures
        count_run(es, p) == n,
    decreases n,
{
    if n == 0 {
    } else {
        let rest = es.drop_first();
        assert forall|m: int| 0 <= m < n - 1 implies (#[trigger] rest[m]).path == p by {
            assert(rest[m] == es[m + 1]);
        }
        if n - 1 < rest.len() {
            assert(rest[n - 1] == es[n]);
        }
        lemma_count_run_exact(rest, p, n - 1);
    }
}

/// One more entry of the same path extends the collected groups by that
/// entry's groups.
proof fn lemma_groups_concat_step(lv: Seq<LedgerEntryV>, i: int, j: int)
    requires
        0 <= i <= j < lv.len(),
    ensures
        groups_of_entries(lv.subrange(i, j + 1)) == groups_of_entries(lv.subrange(i, j))
            + crate::group::entry_groups(lv[j]),
    decreases j - i,
{
    let a = lv.subrange(i, j + 1);
    if i == j {
        assert(lv.subrange(i, j) =~= Seq::<LedgerEntryV>::empty());
        assert(a.drop_first() =~= Seq::<LedgerEntryV>::empty());
        assert(a[0] == lv[j]);
        assert(groups_of_entries(Seq::<LedgerEntryV>::empty()) =~= Seq::<GroupV>::empty());
        assert(groups_of_entries(a) =~= crate::group::entry_groups(lv[j]));
        assert(groups_of_entries(lv.subrange(i, j)) + crate::group::entry_groups(lv[j])
            =~= crate::group::entry_groups(lv[j]));
    } else {
        lemma_groups_concat_step(lv, i + 1, j);
        let b = lv.subrange(i, j);
        assert(a[0] == lv[i]);
        assert(b[0] == lv[i]);
        assert(a.drop_first() =~= lv.subrange(i + 1, j + 1));
        assert(b.drop_first() =~= lv.subrange(i + 1, j));
        assert(groups_of_entries(a) == crate::group::entry_groups(lv[i]) + groups_of_entries(
            lv.subrange(i + 1, j + 1),
        ));
        assert(groups_of_entries(b) == crate::group::entry_groups(lv[i]) + groups_of_entries(
            lv.subrange(i + 1, j),
        ));
        assert(crate::group::entry_groups(lv[i]) + (groups_of_entries(lv.subrange(i + 1, j))
            + crate::group::entry_groups(lv[j])) =~= (crate::group::entry_groups(lv[i])
            + groups_of_entries(lv.subrange(i + 1, j))) + crate::group::entry_groups(lv[j]));
    }
}

} // verus!
