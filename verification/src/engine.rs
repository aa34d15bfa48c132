use vstd::prelude::*;
use crate::annotation::{Annotation, ann_valid};
use crate::config::ProjectionConfig;
use crate::document::Document;
use crate::excerpt::{Excerpt, excerpt_views};
use crate::ledger::{Ledger, LedgerEntry, LedgerEntryV, anns_valid, entries_valid, ledger_drop,
    ledger_put, ledger_sorted, lemma_ledger_drop_membership, lemma_ledger_put_membership};
use crate::pathname::PathKey;
use crate::projection::{DocEntry, DocEntryV, PathState, PathStateV, compute_states, docs_put,
    docs_views, docs_wf, lemma_docs_put_wf, lemma_project_entries_display, project_entries,
    state_display_wf, state_lookup, state_views, states_excerpts};
use crate::reconcile::{ReconcileOp, apply_ops, op_views, reconcile};

verus! {

/// Why a report is rejected: a range whose end precedes its start.  Ranges
/// beyond the end of the document are not errors; they are clipped at
/// projection time.
#[derive(Clone, Copy, PartialEq, Eq, Structural, Debug)]
pub enum ReportError {
    InvalidRange,
}

/// Some annotation of the batch has its end before its start.
pub open spec fn has_invalid(anns: Seq<Annotation>) -> bool {
    exists|i: int| 0 <= i < anns.len() && !ann_valid(#[trigger] anns[i])
}

/// The dirty set with one more path marked; marking an already dirty path
/// changes nothing.
pub open spec fn dirty_mark(d: Seq<Seq<u8>>, p: Seq<u8>) -> Seq<Seq<u8>> {
    if d.contains(p) {
        d
    } else {
        d.push(p)
    }
}

/// The producers in mid-check with one more marked; marking twice changes
/// nothing.
pub open spec fn mark_on(s: Seq<u64>, x: u64) -> Seq<u64> {
    if s.contains(x) {
        s
    } else {
        s.push(x)
    }
}

/// The producers in mid-check with one unmarked.
pub open spec fn mark_off(s: Seq<u64>, x: u64) -> Seq<u64> {
    s.filter(|y: u64| y != x)
}

/// The values of the dirty set.
pub open spec fn path_views(s: Seq<PathKey>) -> Seq<Seq<u8>> {
    s.map_values(|p: PathKey| p@)
}

/// The mathematical state of the engine.
#[verifier::ext_equal]
pub struct EngineV {
    pub config: ProjectionConfig,
    pub ledger: Seq<LedgerEntryV>,
    pub docs: Seq<DocEntryV>,
    pub checking: Seq<u64>,
    pub dirty: Seq<Seq<u8>>,
    pub timer_armed: bool,
    pub states: Seq<PathStateV>,
}

/// The engine's standing invariant: the ledger is strictly sorted by
/// (path, producer) and holds only well-formed ranges, every known document
/// is usable, and every displayed path state is displayable — groups in
/// display order, excerpts strictly increasing and non-overlapping, gap
/// markers exactly after the first excerpt.
pub open spec fn engine_wf(e: EngineV) -> bool {
    &&& ledger_sorted(e.ledger)
    &&& entries_valid(e.ledger)
    &&& docs_wf(e.docs)
    &&& forall|k: int| 0 <= k < e.states.len() ==> state_display_wf(#[trigger] e.states[k])
}

/// The diagnostics aggregation engine.
///
/// Producers report complete per-(path, producer) annotation sets into the
/// ledger, the single source of truth.  Reports never recompute anything:
/// they mark the path dirty and arm the debounce timer, so a burst of
/// reports collapses into the one recomputation that runs when the timer
/// fires (or when a caller flushes explicitly).  Recomputation derives the
/// displayed path states from the ledger alone, which makes the final
/// projection independent of the order in which reports arrived.
#[derive(Debug)]
pub struct DiagnosticsEngine {
    config: ProjectionConfig,
    ledger: Ledger,
    docs: Vec<DocEntry>,
    checking: Vec<u64>,
    dirty: Vec<PathKey>,
    timer_armed: bool,
    states: Vec<PathState>,
}

impl View for DiagnosticsEngine {
    type V = EngineV;

    closed spec fn view(&self) -> EngineV {
        EngineV {
            config: self.config,
            ledger: self.ledger@,
            docs: docs_views(self.docs@),
            checking: self.checking@,
            dirty: path_views(self.dirty@),
            timer_armed: self.timer_armed,
            states: state_views(self.states@),
        }
    }
}

impl DiagnosticsEngine {
    pub open spec fn wf(&self) -> bool {
        engine_wf(self@)
    }

    /// A fresh engine: empty ledger, no documents, no producers in
    /// mid-check, nothing dirty, no timer pending, nothing displayed.
    pub fn new(config: ProjectionConfig) -> (e: DiagnosticsEngine)
        ensures
            e@ == (EngineV {
                config,
                ledger: Seq::<LedgerEntryV>::empty(),
                docs: Seq::<DocEntryV>::empty(),
                checking: Seq::<u64>::empty(),
                dirty: Seq::<Seq<u8>>::empty(),
                timer_armed: false,
                states: Seq::<PathStateV>::empty(),
            }),
            e.wf(),
    {
        let e = DiagnosticsEngine {
            config,
            ledger: Ledger::new(),
            docs: Vec::new(),
            checking: Vec::new(),
            dirty: Vec::new(),
            timer_armed: false,
            states: Vec::new(),
        };
        proof {
            assert(e@ =~= (EngineV {
                config,
                ledger: Seq::<LedgerEntryV>::empty(),
                docs: Seq::<DocEntryV>::empty(),
                checking: Seq::<u64>::empty(),
                dirty: Seq::<Seq<u8>>::empty(),
                timer_armed: false,
                states: Seq::<PathStateV>::empty(),
            }));
        }
        e
    }

    /// The configuration the projector runs with.
    pub fn config(&self) -> (c: ProjectionConfig)
        ensures
            c == self@.config,
    {
        self.config
    }

    /// Whether a recomputation is pending on the debounce timer.
    pub fn pending(&self) -> (r: bool)
        ensures
            r == self@.timer_armed,
    {
        self.timer_armed
    }

    /// Ingests one producer's complete report for one path.
    ///
    /// A batch with a range whose end precedes its start is rejected whole:
    /// the engine is left exactly as it was.  An accepted empty batch
    /// deletes the (path, producer) entry; an accepted non-empty batch
    /// replaces it.  Either way the path is marked dirty and the debounce
    /// timer is (re)armed — the displayed projection is not touched here.
    #[verifier::loop_isolation(false)]
    pub fn report(&mut self, path: &PathKey, producer: u64, annotations: Vec<Annotation>) -> (r:
        Result<(), ReportError>)
        requires
            old(self).wf(),
        ensures
            final(self).wf(),
            match r {
                Result::Err(err) => err == ReportError::InvalidRange && has_invalid(annotations@)
                    && final(self)@ == old(self)@,
                Result::Ok(u) => !has_invalid(annotations@) && final(self)@ == (EngineV {
                    ledger: if annotations@.len() == 0 {
                        ledger_drop(old(self)@.ledger, path@, producer)
                    } else {
                        ledger_put(
                            old(self)@.ledger,
                            LedgerEntryV { path: path@, producer, annotations: annotations@ },
                        )
                    },
                    dirty: dirty_mark(old(self)@.dirty, path@),
                    timer_armed: true,
                    ..old(self)@
                }),
            },
    {
        let mut i: usize = 0;
        while i < annotations.len()
            invariant
                i <= annotations.len(),
                forall|j: int| 0 <= j < i ==> ann_valid(#[trigger] annotations@[j]),
                self == old(self),
            decreases annotations.len() - i,
        {
            if !annotations[i].range_valid() {
                return Result::Err(ReportError::InvalidRange);
            }
            i = i + 1;
        }
        let ghost prev = self@;
        if annotations.len() == 0 {
            self.ledger.drop_entry(path, producer);
            proof {
                lemma_ledger_drop_membership(prev.ledger, path@, producer);
                assert forall|k: int| 0 <= k < self.ledger@.len() implies anns_valid(
                    (#[trigger] self.ledger@[k]).annotations,
                ) by {
                    assert(prev.ledger.contains(self.ledger@[k]));
                    let m = choose|m: int| 0 <= m < prev.ledger.len() && prev.ledger[m]
                        == self.ledger@[k];
                }
            }
        } else {
            let entry = LedgerEntry { path: path.duplicate(), producer, annotations };
            proof {
                assert(entry@ =~= (LedgerEntryV { path: path@, producer, annotations: entry.annotations@ }));
            }
            self.ledger.put(entry);
            proof {
                lemma_ledger_put_membership(prev.ledger, entry@);
                assert forall|k: int| 0 <= k < self.ledger@.len() implies anns_valid(
                    (#[trigger] self.ledger@[k]).annotations,
                ) by {
                    if self.ledger@[k] != entry@ {
                        assert(prev.ledger.contains(self.ledger@[k]));
                        let m = choose|m: int| 0 <= m < prev.ledger.len() && prev.ledger[m]
                            == self.ledger@[k];
                    }
                }
            }
        }
        let ghost dirty0 = path_views(self.dirty@);
        let mut found = false;
        let mut k: usize = 0;
        while k < self.dirty.len()
            invariant
                k <= self.dirty.len(),
                path_views(self.dirty@) == dirty0,
                found == dirty0.take(k as int).contains(path@),
            decreases self.dirty.len() - k,
        {
            proof {
                assert(dirty0[k as int] == (#[trigger] self.dirty@[k as int])@);
                assert(dirty0.take(k + 1).drop_last() =~= dirty0.take(k as int));
                assert(dirty0.take(k + 1).last() == dirty0[k as int]);
                if dirty0.take(k as int).contains(path@) {
                    let w = choose|w: int| 0 <= w < k && dirty0.take(k as int)[w] == path@;
                    assert(dirty0.take(k + 1)[w] == path@);
                }
            }
            if self.dirty[k].same_as(path) {
                found = true;
            }
            k = k + 1;
        }
        proof {
            assert(dirty0.take(dirty0.len() as int) =~= dirty0);
        }
        if !found {
            self.dirty.push(path.duplicate());
            proof {
                assert(path_views(self.dirty@) =~= dirty0.push(path@));
            }
        }
        self.timer_armed = true;
        proof {
            assert(self@ =~= (EngineV {
                ledger: if annotations@.len() == 0 {
                    ledger_drop(prev.ledger, path@, producer)
                } else {
                    ledger_put(
                        prev.ledger,
                        LedgerEntryV { path: path@, producer, annotations: annotations@ },
                    )
                },
                dirty: dirty_mark(prev.dirty, path@),
                timer_armed: true,
                ..prev
            }));
        }
        Result::Ok(())
    }

    /// Records that a producer has begun a full check.  Advisory only: it
    /// touches no ledger entry, schedules nothing, and gates nothing —
    /// annotations are shown as soon as they are reported.
    #[verifier::loop_isolation(false)]
    pub fn begin_check(&mut self, producer: u64)
        requires
            old(self).wf(),
        ensures
            final(self).wf(),
            final(self)@ == (EngineV { checking: mark_on(old(self)@.checking, producer), ..old(
                self,
            )@ }),
    {
        let ghost prev = self@;
        let mut found = false;
        let mut k: usize = 0;
        while k < self.checking.len()
            invariant
                k <= self.checking.len(),
                self == old(self),
                found == self.checking@.take(k as int).contains(producer),
            decreases self.checking.len() - k,
        {
            proof {
                assert(self.checking@.take(k + 1).drop_last() =~= self.checking@.take(k as int));
                assert(self.checking@.take(k + 1).last() == self.checking@[k as int]);
                if self.checking@.take(k as int).contains(producer) {
                    let w = choose|w: int| 0 <= w < k && self.checking@.take(k as int)[w]
                        == producer;
                    assert(self.checking@.take(k + 1)[w] == producer);
                }
            }
            if self.checking[k] == producer {
                found = true;
            }
            k = k + 1;
        }
        proof {
            assert(self.checking@.take(self.checking@.len() as int) =~= self.checking@);
        }
        if !found {
            self.checking.push(producer);
        }
        proof {
            assert(self@ =~= (EngineV { checking: mark_on(prev.checking, producer), ..prev }));
        }
    }

    /// Records that a producer has finished its full check.  Advisory only,
    /// like `begin_check`.
    #[verifier::loop_isolation(false)]
    pub fn end_check(&mut self, producer: u64)
        requires
            old(self).wf(),
        ensures
            final(self).wf(),
            final(self)@ == (EngineV { checking: mark_off(old(self)@.checking, producer), ..old(
                self,
            )@ }),
    {
        let ghost prev = self@;
        let ghost cv = self.checking@;
        let mut kept: Vec<u64> = Vec::new();
        proof {
            reveal(Seq::filter);
            assert(kept@ =~= mark_off(cv.take(0), producer));
        }
        let mut k: usize = 0;
        while k < self.checking.len()
            invariant
                k <= self.checking.len(),
                self == old(self),
                cv == self.checking@,
                kept@ == mark_off(cv.take(k as int), producer),
            decreases self.checking.len() - k,
        {
            proof {
                reveal(Seq::filter);
                assert(cv.take(k + 1).drop_last() =~= cv.take(k as int));
                assert(cv.take(k + 1).last() == cv[k as int]);
            }
            if self.checking[k] != producer {
                kept.push(self.checking[k]);
            }
            k = k + 1;
        }
        proof {
            assert(cv.take(cv.len() as int) =~= cv);
        }
        self.checking = kept;
        proof {
            assert(self@ =~= (EngineV { checking: mark_off(prev.checking, producer), ..prev }));
        }
    }

    /// Whether a producer is in mid-check.
    #[verifier::loop_isolation(false)]
    pub fn is_checking(&self, producer: u64) -> (r: bool)
        ensures
            r == self@.checking.contains(producer),
    {
        let mut k: usize = 0;
        while k < self.checking.len()
            invariant
                k <= self.checking.len(),
                forall|j: int| 0 <= j < k ==> self.checking@[j] != producer,
            decreases self.checking.len() - k,
        {
            if self.checking[k] == producer {
                return true;
            }
            k = k + 1;
        }
        false
    }

    /// Stores or replaces the line model of a document and marks its path
    /// dirty: positions clip differently now, so the path needs
    /// reprojection when the timer next fires.
    #[verifier::loop_isolation(false)]
    pub fn set_document(&mut self, path: &PathKey, doc: Document)
        requires
            old(self).wf(),
            doc.wf(),
        ensures
            final(self).wf(),
            final(self)@ == (EngineV {
                docs: docs_put(old(self)@.docs, DocEntryV { path: path@, lines: doc@ }),
                dirty: dirty_mark(old(self)@.dirty, path@),
                timer_armed: true,
                ..old(self)@
            }),
    {
        let ghost prev = self@;
        let ghost ev = DocEntryV { path: path@, lines: doc@ };
        let mut i: usize = 0;
        while i < self.docs.len() && !self.docs[i].path.same_as(path)
            invariant
                i <= self.docs.len(),
                self == old(self),
                forall|j: int| 0 <= j < i ==> (#[trigger] docs_views(self.docs@)[j]).path != path@,
            decreases self.docs.len() - i,
        {
            proof {
                assert(docs_views(self.docs@)[i as int] == (#[trigger] self.docs@[i as int])@);
            }
            i = i + 1;
        }
        proof {
            if i < self.docs.len() {
                assert(docs_views(self.docs@)[i as int] == self.docs@[i as int]@);
            }
            lemma_docs_put_split(prev.docs, ev, i as int);
            lemma_docs_put_wf(prev.docs, ev);
        }
        let entry = DocEntry { path: path.duplicate(), doc };
        if i < self.docs.len() {
            self.docs.remove(i);
            self.docs.insert(i, entry);
            proof {
                assert(docs_views(self.docs@) =~= prev.docs.take(i as int) + seq![ev]
                    + prev.docs.skip(i as int + 1));
            }
        } else {
            self.docs.push(entry);
            proof {
                assert(docs_views(self.docs@) =~= prev.docs + seq![ev]);
            }
        }
        let ghost dirty0 = path_views(self.dirty@);
        let mut found = false;
        let mut k: usize = 0;
        while k < self.dirty.len()
            invariant
                k <= self.dirty.len(),
                path_views(self.dirty@) == dirty0,
                found == dirty0.take(k as int).contains(path@),
            decreases self.dirty.len() - k,
        {
            proof {
                assert(dirty0[k as int] == (#[trigger] self.dirty@[k as int])@);
                assert(dirty0.take(k + 1).drop_last() =~= dirty0.take(k as int));
                assert(dirty0.take(k + 1).last() == dirty0[k as int]);
                if dirty0.take(k as int).contains(path@) {
                    let w = choose|w: int| 0 <= w < k && dirty0.take(k as int)[w] == path@;
                    assert(dirty0.take(k + 1)[w] == path@);
                }
            }
            if self.dirty[k].same_as(path) {
                found = true;
            }
            k = k + 1;
        }
        proof {
            assert(dirty0.take(dirty0.len() as int) =~= dirty0);
        }
        if !found {
            self.dirty.push(path.duplicate());
            proof {
                assert(path_views(self.dirty@) =~= dirty0.push(path@));
            }
        }
        self.timer_armed = true;
        proof {
            assert(self@ =~= (EngineV {
                docs: docs_put(prev.docs, ev),
                dirty: dirty_mark(prev.dirty, path@),
                timer_armed: true,
                ..prev
            }));
        }
    }

    /// Forces recomputation now, bypassing the timer: rebuilds every path
    /// state from the current ledger and documents, clears the dirty set,
    /// disarms the timer, and returns the edit script that takes the
    /// previously displayed excerpt list to the new one.
    pub fn flush(&mut self) -> (ops: Vec<ReconcileOp>)
        requires
            old(self).wf(),
        ensures
            final(self).wf(),
            final(self)@ == (EngineV {
                dirty: Seq::<Seq<u8>>::empty(),
                timer_armed: false,
                states: project_entries(old(self)@.ledger, old(self)@.docs, old(self)@.config),
                ..old(self)@
            }),
            apply_ops(states_excerpts(old(self)@.states), op_views(ops@)) == Option::Some(
                states_excerpts(final(self)@.states),
            ),
    {
        let ghost prev = self@;
        let new_states = compute_states(&self.ledger, &self.docs, self.config);
        let prev_flat = crate::projection::flatten_states(&self.states);
        let next_flat = crate::projection::flatten_states(&new_states);
        let ops = reconcile(&prev_flat, &next_flat);
        self.states = new_states;
        self.dirty = Vec::new();
        self.timer_armed = false;
        proof {
            lemma_project_entries_display(prev.ledger, prev.docs, prev.config);
            assert(path_views(self.dirty@) =~= Seq::<Seq<u8>>::empty());
            assert(self@ =~= (EngineV {
                dirty: Seq::<Seq<u8>>::empty(),
                timer_armed: false,
                states: project_entries(prev.ledger, prev.docs, prev.config),
                ..prev
            }));
        }
        ops
    }

    /// The debounce timer fired.  With a recomputation pending this is a
    /// flush; with none (the timer was never armed, or was cancelled) it
    /// does nothing at all.
    pub fn timer_fired(&mut self) -> (ops: Vec<ReconcileOp>)
        requires
            old(self).wf(),
        ensures
            final(self).wf(),
            old(self)@.timer_armed ==> final(self)@ == (EngineV {
                dirty: Seq::<Seq<u8>>::empty(),
                timer_armed: false,
                states: project_entries(old(self)@.ledger, old(self)@.docs, old(self)@.config),
                ..old(self)@
            }) && apply_ops(states_excerpts(old(self)@.states), op_views(ops@)) == Option::Some(
                states_excerpts(final(self)@.states),
            ),
            !old(self)@.timer_armed ==> final(self)@ == old(self)@ && ops@.len() == 0,
    {
        if self.timer_armed {
            self.flush()
        } else {
            Vec::new()
        }
    }

    /// Drops a pending recomputation with no other side effect: the ledger
    /// and the dirty set are kept, so the next trigger still sees them.
    pub fn cancel_pending(&mut self)
        requires
            old(self).wf(),
        ensures
            final(self).wf(),
            final(self)@ == (EngineV { timer_armed: false, ..old(self)@ }),
    {
        self.timer_armed = false;
        proof {
            assert(self@ =~= (EngineV { timer_armed: false, ..old(self)@ }));
        }
    }

    /// How many paths the projection currently displays.
    pub fn path_count(&self) -> (n: usize)
        ensures
            n == self@.states.len(),
    {
        self.states.len()
    }

    /// The displayed state of one path, by position.
    pub fn state_at(&self, i: usize) -> (st: &PathState)
        requires
            i < self@.states.len(),
        ensures
            st@ == self@.states[i as int],
    {
        proof {
            assert(state_views(self.states@)[i as int] == (#[trigger] self.states@[i as int])@);
        }
        &self.states[i]
    }

    /// All displayed excerpts, across all paths, in display order.
    pub fn current_excerpts(&self) -> (out: Vec<Excerpt>)
        ensures
            excerpt_views(out@) == states_excerpts(self@.states),
    {
        crate::projection::flatten_states(&self.states)
    }

    /// The displayed excerpts of one path, or nothing when the path is not
    /// in the projection.
    #[verifier::loop_isolation(false)]
    pub fn excerpts_for(&self, path: &PathKey) -> (out: Vec<Excerpt>)
        ensures
            excerpt_views(out@) == match state_lookup(self@.states, path@) {
                Option::Some(st) => st.excerpts,
                Option::None => Seq::empty(),
            },
    {
        let ghost sv = state_views(self.states@);
        let mut i: usize = 0;
        proof {
            assert(sv.skip(0) =~= sv);
        }
        while i < self.states.len()
            invariant
                i <= self.states.len(),
                state_lookup(sv, path@) == state_lookup(sv.skip(i as int), path@),
            decreases self.states.len() - i,
        {
            proof {
                assert(sv.skip(i as int)[0] == sv[i as int]);
                assert(sv[i as int] == (#[trigger] self.states@[i as int])@);
                assert(sv.skip(i as int).drop_first() =~= sv.skip(i + 1));
            }
            if self.states[i].path.same_as(path) {
                let ex = &self.states[i].excerpts;
                let mut out: Vec<Excerpt> = Vec::new();
                let mut j: usize = 0;
                proof {
                    assert(excerpt_views(out@) =~= excerpt_views(ex@).take(0));
                }
                while j < ex.len()
                    invariant
                        j <= ex.len(),
                        excerpt_views(out@) == excerpt_views(ex@).take(j as int),
                    decreases ex.len() - j,
                {
                    let dup = ex[j].duplicate();
                    let ghost out0 = out@;
                    out.push(dup);
                    proof {
                        assert(out@ == out0.push(dup));
                        assert(excerpt_views(out@) =~= excerpt_views(out0).push(dup@));
                        assert(dup@ == excerpt_views(ex@)[j as int]);
                        assert(excerpt_views(ex@).take(j + 1) =~= excerpt_views(ex@).take(
                            j as int,
                        ).push(excerpt_views(ex@)[j as int]));
                        assert(excerpt_views(out@) =~= excerpt_views(ex@).take(j + 1));
                    }
                    j = j + 1;
                }
                proof {
                    assert(excerpt_views(ex@).take(ex@.len() as int) =~= excerpt_views(ex@));
                }
                return out;
            }
            i = i + 1;
        }
        proof {
            assert(sv.skip(self.states@.len() as int) =~= Seq::<PathStateV>::empty());
        }
        let out: Vec<Excerpt> = Vec::new();
        proof {
            assert(excerpt_views(out@) =~= Seq::<crate::excerpt::ExcerptV>::empty());
        }
        out
    }
}

/// Where the stored document lands: replaced in place on a path match,
/// appended otherwise.
proof fn lemma_docs_put_split(docs: Seq<DocEntryV>, e: DocEntryV, i: int)
    requires
        0 <= i <= docs.len(),
        forall|j: int| 0 <= j < i ==> (#[trigger] docs[j]).path != e.path,
        i < docs.len() ==> docs[i].path == e.path,
    ensures
        docs_put(docs, e) == if i < docs.len() {
            docs.take(i) + seq![e] + docs.skip(i + 1)
        } else {
            docs + seq![e]
        },
    decreases i,
{
    if i == 0 {
        if docs.len() == 0 {
            assert(docs_put(docs, e) =~= docs + seq![e]);
        } else {
            assert(docs_put(docs, e) == seq![e] + docs.drop_first());
            assert(docs_put(docs, e) =~= docs.take(0) + seq![e] + docs.skip(1));
        }
    } else {
        lemma_docs_put_split(docs.drop_first(), e, i - 1);
        let rest = docs.drop_first();
        if i < docs.len() {
            assert(seq![docs[0]] + (rest.take(i - 1) + seq![e] + rest.skip(i)) =~= docs.take(i)
                + seq![e] + docs.skip(i + 1));
        } else {
            assert(seq![docs[0]] + (rest + seq![e]) =~= docs + seq![e]);
        }
    }
}

} // verus!
