use vstd::prelude::*;
use crate::engine::{EngineV, engine_wf};
use crate::excerpt::{excerpt_wf, excerpts_ordered};
use crate::group::groups_sorted;
use crate::ledger::{LedgerEntryV, entries_valid, entry_key_eq, ledger_drop, ledger_put,
    ledger_sorted, lemma_ledger_drop_membership, lemma_ledger_drop_sorted,
    lemma_ledger_put_commutes, lemma_ledger_put_supersedes};
use crate::excerpt::{keys_of_excerpts, keys_of_groups};
use crate::projection::{DocEntryV, doc_lookup, docs_wf, lemma_project_entries_keys,
    lemma_project_entries_sound, project_entries, states_excerpts};
use crate::config::ProjectionConfig;

verus! {

/// Convergence: the displayed projection is a function of the current
/// ledger contents, documents and configuration alone.  Two engines whose
/// ledgers agree recompute to identical projections, however different the
/// histories of reports and flushes that led to them; together with
/// `flush`, whose contract pins the new states to exactly this function,
/// the final excerpt set equals the one obtained by discarding history and
/// recomputing once from the final ledger.
pub proof fn lemma_convergence(a: EngineV, b: EngineV)
    requires
        a.ledger == b.ledger,
        a.docs == b.docs,
        a.config == b.config,
    ensures
        project_entries(a.ledger, a.docs, a.config) == project_entries(b.ledger, b.docs, b.config),
{
}

/// Order-independence of ingestion, the mechanism behind convergence:
/// reports to two different (path, producer) keys leave the same ledger —
/// and therefore the same projection — whichever arrives first, and a later
/// report to the same key fully supersedes an earlier one as if the earlier
/// had never happened.
pub proof fn lemma_report_order_independent(
    l: Seq<LedgerEntryV>,
    e1: LedgerEntryV,
    e2: LedgerEntryV,
    docs: Seq<DocEntryV>,
    cfg: ProjectionConfig,
)
    ensures
        !entry_key_eq(e1, e2) ==> project_entries(ledger_put(ledger_put(l, e1), e2), docs, cfg)
            == project_entries(ledger_put(ledger_put(l, e2), e1), docs, cfg),
        entry_key_eq(e1, e2) ==> project_entries(ledger_put(ledger_put(l, e1), e2), docs, cfg)
            == project_entries(ledger_put(l, e2), docs, cfg),
{
    if !entry_key_eq(e1, e2) {
        lemma_ledger_put_commutes(l, e1, e2);
    } else {
        lemma_ledger_put_supersedes(l, e1, e2);
    }
}

/// Determinism: recomputing twice from an unchanged ledger yields identical
/// path states and an identical flat excerpt sequence.  Any two engines
/// that have just recomputed from equal inputs display the same thing.
pub proof fn lemma_determinism(a: EngineV, b: EngineV)
    requires
        a.ledger == b.ledger,
        a.docs == b.docs,
        a.config == b.config,
        a.states == project_entries(a.ledger, a.docs, a.config),
        b.states == project_entries(b.ledger, b.docs, b.config),
    ensures
        a.states == b.states,
        states_excerpts(a.states) == states_excerpts(b.states),
{
}

/// Ordering invariant: in every displayed path state of a well-formed
/// engine, excerpts are forward ranges, strictly increasing by start row
/// and non-overlapping; the groups stand in display order; and the
/// collapsed-context marker sits exactly on every excerpt after the first,
/// the only places where rows are skipped.
pub proof fn lemma_ordering_invariant(e: EngineV)
    requires
        engine_wf(e),
    ensures
        forall|k: int| 0 <= k < e.states.len() ==> excerpts_ordered(
            (#[trigger] e.states[k]).excerpts,
        ),
        forall|k: int| 0 <= k < e.states.len() ==> groups_sorted((#[trigger] e.states[k]).groups),
        forall|k: int| 0 <= k < e.states.len() ==> ((#[trigger] e.states[k]).excerpts.len() > 0
            ==> !e.states[k].excerpts[0].gap_before),
        forall|k: int, m: int| 0 <= k < e.states.len() && 1 <= m < (
        #[trigger] e.states[k]).excerpts.len() ==> (#[trigger] e.states[k].excerpts[m]).gap_before,
{
}

/// Clipping safety: the ledger accepts any range whose end does not precede
/// its start, however far past the end of the document it reaches, and the
/// projection clips every excerpt into the document of its path.  A path
/// whose document is unknown projects no excerpts at all.
pub proof fn lemma_clipping_safety(
    l: Seq<LedgerEntryV>,
    docs: Seq<DocEntryV>,
    cfg: ProjectionConfig,
)
    requires
        entries_valid(l),
        docs_wf(docs),
    ensures
        forall|k: int| 0 <= k < project_entries(l, docs, cfg).len() ==> match doc_lookup(
            docs,
            (#[trigger] project_entries(l, docs, cfg)[k]).path,
        ) {
            Option::Some(d) => forall|m: int| 0 <= m < project_entries(l, docs, cfg)[k].excerpts.len()
                ==> excerpt_wf(#[trigger] project_entries(l, docs, cfg)[k].excerpts[m], d),
            Option::None => project_entries(l, docs, cfg)[k].excerpts.len() == 0,
        },
{
    lemma_project_entries_sound(l, docs, cfg);
}

/// Group accounting: on every displayed path with a known document, the
/// excerpts show the keys of exactly the path's diagnostic groups, in
/// order — every group is displayed by exactly one excerpt, merged
/// excerpts listing each of their contributing groups.
pub proof fn lemma_group_accounting(
    l: Seq<LedgerEntryV>,
    docs: Seq<DocEntryV>,
    cfg: ProjectionConfig,
)
    ensures
        forall|k: int| 0 <= k < project_entries(l, docs, cfg).len() && doc_lookup(
            docs,
            (#[trigger] project_entries(l, docs, cfg)[k]).path,
        ) is Some ==> keys_of_excerpts(project_entries(l, docs, cfg)[k].excerpts)
            == keys_of_groups(project_entries(l, docs, cfg)[k].groups),
{
    lemma_project_entries_keys(l, docs, cfg);
}

/// Idle-replace: when the only producer reporting a path hands in an empty
/// set, the resulting ledger deletion removes the path's entry, and the
/// next recomputation removes the path from the projection entirely.
pub proof fn lemma_idle_replace(
    l: Seq<LedgerEntryV>,
    docs: Seq<DocEntryV>,
    cfg: ProjectionConfig,
    path: Seq<u8>,
    producer: u64,
)
    requires
        ledger_sorted(l),
        entries_valid(l),
        docs_wf(docs),
        forall|i: int| 0 <= i < l.len() && (#[trigger] l[i]).path == path ==> l[i].producer
            == producer,
    ensures
        forall|i: int| 0 <= i < ledger_drop(l, path, producer).len() ==> (
        #[trigger] ledger_drop(l, path, producer)[i]).path != path,
        forall|k: int| 0 <= k < project_entries(ledger_drop(l, path, producer), docs, cfg).len()
            ==> (#[trigger] project_entries(ledger_drop(l, path, producer), docs, cfg)[k]).path
            != path,
{
    let l2 = ledger_drop(l, path, producer);
    lemma_ledger_drop_sorted(l, path, producer);
    lemma_ledger_drop_membership(l, path, producer);
    assert forall|i: int| 0 <= i < l2.len() implies (#[trigger] l2[i]).path != path by {
        if l2[i].path == path {
            assert(l.contains(l2[i]));
            let m = choose|m: int| 0 <= m < l.len() && l[m] == l2[i];
            assert(l[m].path == path);
            assert(l[m].producer == producer);
        }
    }
    assert(entries_valid(l2)) by {
        assert forall|i: int| 0 <= i < l2.len() implies crate::ledger::anns_valid(
            (#[trigger] l2[i]).annotations,
        ) by {
            assert(l.contains(l2[i]));
            let m = choose|m: int| 0 <= m < l.len() && l[m] == l2[i];
        }
    }
    lemma_project_entries_sound(l2, docs, cfg);
    assert forall|k: int| 0 <= k < project_entries(l2, docs, cfg).len() implies (
    #[trigger] project_entries(l2, docs, cfg)[k]).path != path by {
        let st = project_entries(l2, docs, cfg)[k];
        let i = choose|i: int| 0 <= i < l2.len() && (#[trigger] l2[i]).path == st.path;
    }
}

} // verus!
