use diagnostics::annotation::Annotation;
use diagnostics::config::ProjectionConfig;
use diagnostics::document::Document;
use diagnostics::engine::{DiagnosticsEngine, ReportError};
use diagnostics::pathname::PathKey;
use diagnostics::point::Point;
use diagnostics::reconcile::ReconcileOp;
use diagnostics::severity::Severity;

fn ann(
    srow: u32,
    scol: u32,
    erow: u32,
    ecol: u32,
    sev: Severity,
    gid: u64,
    primary: bool,
    msg: &str,
) -> Annotation {
    Annotation {
        start: Point::new(srow, scol),
        end: Point::new(erow, ecol),
        severity: sev,
        message: msg.to_string(),
        group_id: gid,
        is_primary: primary,
        is_disk_based: false,
        is_unnecessary: false,
        source: None,
        code: None,
        data: None,
    }
}

fn path(s: &str) -> PathKey {
    PathKey::new(s.as_bytes().to_vec())
}

fn doc(lines: &[u32]) -> Document {
    Document::new(lines.to_vec())
}

fn engine(k: u32, adjacency: u32) -> DiagnosticsEngine {
    DiagnosticsEngine::new(ProjectionConfig::new(k, adjacency))
}

fn nine_line_doc() -> Document {
    doc(&[11, 19, 19, 9, 9, 16, 16, 9, 1])
}

#[test]
fn merged_excerpt_for_close_groups() {
    // Two error groups at lines 1 and 3 of a 9-line file with two lines of
    // context: their context ranges overlap, so they merge into one excerpt
    // covering rows 0 through 5, holding both group keys.
    let mut e = engine(2, 0);
    e.set_document(&path("/test/main.rs"), nine_line_doc());
    e.report(
        &path("/test/main.rs"),
        1,
        vec![
            ann(1, 4, 1, 5, Severity::Error, 0, true, "use of moved value"),
            ann(3, 4, 3, 5, Severity::Error, 1, true, "use of moved value"),
        ],
    )
    .unwrap();
    e.flush();
    let ex = e.current_excerpts();
    assert_eq!(ex.len(), 1);
    assert_eq!(ex[0].start_row, 0);
    assert_eq!(ex[0].end_row, 5);
    assert_eq!(ex[0].group_keys.len(), 2);
    assert!(!ex[0].gap_before);
    assert_eq!(ex[0].primary_start.row, 1);
    assert_eq!(ex[0].primary_start.column, 4);
}

#[test]
fn separate_excerpts_for_distant_groups() {
    // Groups at rows 0 and 8 with two lines of context stay apart: two
    // excerpts, clipped to the file, sorted ascending, the second one marked
    // as preceded by a gap.
    let mut e = engine(2, 0);
    e.set_document(&path("/test/main.rs"), nine_line_doc());
    e.report(
        &path("/test/main.rs"),
        1,
        vec![
            ann(0, 0, 0, 1, Severity::Error, 0, true, "first"),
            ann(8, 0, 8, 1, Severity::Error, 1, true, "second"),
        ],
    )
    .unwrap();
    e.flush();
    let ex = e.current_excerpts();
    assert_eq!(ex.len(), 2);
    assert_eq!(ex[0].start_row, 0);
    assert_eq!(ex[0].end_row, 2);
    assert!(!ex[0].gap_before);
    assert_eq!(ex[1].start_row, 6);
    assert_eq!(ex[1].end_row, 8);
    assert!(ex[1].gap_before);
}

#[test]
fn two_producers_surface_without_end_check() {
    // Producer 100 reports a group and finishes its check; producer 101 then
    // reports an overlapping group for the same path without finishing.
    // Both groups are displayed, sorted by position: visibility is not
    // gated on the check lifecycle.
    let mut e = engine(2, 0);
    let p = || path("/test/main.js");
    e.set_document(&p(), doc(&[5, 5, 5, 5, 5]));
    e.begin_check(100);
    e.begin_check(101);
    e.report(&p(), 100, vec![ann(0, 0, 0, 1, Severity::Warning, 1, true, "error 1")]).unwrap();
    e.end_check(100);
    e.flush();
    assert_eq!(e.path_count(), 1);
    assert_eq!(e.state_at(0).groups.len(), 1);
    e.report(&p(), 101, vec![ann(1, 0, 1, 1, Severity::Error, 2, true, "warning 1")]).unwrap();
    e.flush();
    assert!(e.is_checking(101));
    assert!(!e.is_checking(100));
    let st = e.state_at(0);
    assert_eq!(st.groups.len(), 2);
    assert_eq!(st.groups[0].producer, 100);
    assert_eq!(st.groups[1].producer, 101);
}

#[test]
fn burst_of_reports_coalesces_into_one_recomputation() {
    // Five reports inside the debounce window arm the one timer and touch
    // nothing displayed; the single firing recomputes once, and a second
    // firing is a no-op.
    let mut e = engine(2, 0);
    let p = || path("/test/a.rs");
    e.set_document(&p(), doc(&[8, 8, 8, 8]));
    for round in 0..5u64 {
        e.report(
            &p(),
            1,
            vec![ann(round as u32 % 4, 0, round as u32 % 4, 1, Severity::Error, round, true, "x")],
        )
        .unwrap();
        assert!(e.pending());
        assert_eq!(e.path_count(), 0); // nothing recomputed yet
    }
    let ops = e.timer_fired();
    assert!(!e.pending());
    assert_eq!(e.path_count(), 1);
    assert!(!ops.is_empty());
    let ops2 = e.timer_fired();
    assert!(ops2.is_empty());
    assert_eq!(e.path_count(), 1);
}

#[test]
fn cancel_drops_pending_recomputation_losslessly() {
    let mut e = engine(2, 0);
    let p = || path("/test/a.rs");
    e.set_document(&p(), doc(&[8, 8]));
    e.report(&p(), 1, vec![ann(0, 0, 0, 1, Severity::Error, 0, true, "x")]).unwrap();
    assert!(e.pending());
    e.cancel_pending();
    assert!(!e.pending());
    let ops = e.timer_fired();
    assert!(ops.is_empty());
    assert_eq!(e.path_count(), 0);
    // The ledger kept the report: the next trigger still sees it.
    e.report(&p(), 2, vec![ann(1, 0, 1, 1, Severity::Error, 1, true, "y")]).unwrap();
    e.timer_fired();
    assert_eq!(e.path_count(), 1);
    assert_eq!(e.state_at(0).groups.len(), 2);
}

#[test]
fn empty_report_removes_producer_and_path() {
    // Reporting an empty set for (path, producer) removes that producer's
    // contribution; once no producer reports the path, it leaves the
    // projection entirely.
    let mut e = engine(2, 0);
    let p = || path("/test/main.rs");
    e.set_document(&p(), nine_line_doc());
    e.report(&p(), 1, vec![ann(0, 0, 0, 1, Severity::Error, 0, true, "a")]).unwrap();
    e.report(&p(), 2, vec![ann(2, 0, 2, 1, Severity::Error, 0, true, "b")]).unwrap();
    e.flush();
    assert_eq!(e.path_count(), 1);
    assert_eq!(e.state_at(0).groups.len(), 2);

    e.report(&p(), 1, vec![]).unwrap();
    e.flush();
    assert_eq!(e.path_count(), 1);
    assert_eq!(e.state_at(0).groups.len(), 1);
    assert_eq!(e.state_at(0).groups[0].producer, 2);

    e.report(&p(), 2, vec![]).unwrap();
    e.flush();
    assert_eq!(e.path_count(), 0);
    assert!(e.excerpts_for(&p()).is_empty());
}

#[test]
fn invalid_range_rejects_whole_batch() {
    // A batch with one range whose end precedes its start is rejected whole,
    // valid entries included, and the engine is left unchanged.
    let mut e = engine(2, 0);
    let p = || path("/test/main.rs");
    e.set_document(&p(), nine_line_doc());
    let r = e.report(
        &p(),
        1,
        vec![
            ann(0, 0, 0, 1, Severity::Error, 0, true, "fine"),
            ann(2, 3, 1, 0, Severity::Error, 1, true, "backwards"),
        ],
    );
    assert_eq!(r, Err(ReportError::InvalidRange));
    e.flush();
    assert_eq!(e.path_count(), 0);
}

#[test]
fn out_of_bounds_ranges_are_clipped_not_rejected() {
    // Ranges running past the end of the file are accepted and clipped at
    // projection time into the last line.
    let mut e = engine(1, 0);
    let p = || path("/test/short.rs");
    e.set_document(&p(), doc(&[5, 5, 5]));
    e.report(&p(), 1, vec![ann(10, 99, 12, 99, Severity::Error, 0, true, "overflow")]).unwrap();
    e.flush();
    let ex = e.current_excerpts();
    assert_eq!(ex.len(), 1);
    assert_eq!(ex[0].start_row, 2);
    assert_eq!(ex[0].end_row, 2);
    assert_eq!(ex[0].primary_start.row, 2);
    assert_eq!(ex[0].primary_start.column, 5);
    assert_eq!(ex[0].primary_end.row, 2);
    assert_eq!(ex[0].primary_end.column, 5);
}

#[test]
fn excerpts_strictly_increasing_per_path() {
    // The ordering invariant on a busy path: excerpts come out strictly
    // increasing by start row, non-overlapping.
    let mut e = engine(1, 0);
    let p = || path("/test/big.rs");
    e.set_document(&p(), doc(&[7; 40]));
    e.report(
        &p(),
        1,
        vec![
            ann(30, 0, 30, 2, Severity::Error, 0, true, "late"),
            ann(4, 0, 4, 2, Severity::Warning, 1, true, "early"),
            ann(18, 0, 18, 2, Severity::Error, 2, true, "middle"),
            ann(5, 0, 5, 2, Severity::Hint, 3, true, "early again"),
        ],
    )
    .unwrap();
    e.flush();
    let ex = e.current_excerpts();
    assert!(ex.len() >= 2);
    for w in ex.windows(2) {
        assert!(w[0].end_row < w[1].start_row);
    }
    for x in &ex {
        assert!(x.start_row <= x.end_row);
        assert!(x.end_row <= 39);
    }
}

#[test]
fn convergence_order_of_reports_does_not_matter() {
    // Two engines receive the same final ledger contents along different
    // histories, with flushes interleaved differently; after a final flush
    // their projections are identical.
    let main = || path("/test/main.rs");
    let consts = || path("/test/consts.rs");

    let mut a = engine(2, 0);
    a.set_document(&main(), nine_line_doc());
    a.set_document(&consts(), doc(&[19, 17]));
    a.report(&main(), 1, vec![ann(7, 6, 7, 7, Severity::Error, 0, true, "one")]).unwrap();
    a.flush();
    a.report(&consts(), 1, vec![ann(0, 15, 0, 15, Severity::Error, 0, true, "two")]).unwrap();
    a.flush();
    a.report(&main(), 2, vec![ann(1, 0, 1, 1, Severity::Warning, 9, true, "three")]).unwrap();
    a.report(&main(), 1, vec![ann(8, 6, 8, 7, Severity::Error, 1, true, "four")]).unwrap();
    a.flush();

    let mut b = engine(2, 0);
    b.set_document(&consts(), doc(&[19, 17]));
    b.report(&main(), 1, vec![ann(5, 5, 5, 6, Severity::Hint, 3, false, "gone")]).unwrap();
    b.report(&main(), 2, vec![ann(1, 0, 1, 1, Severity::Warning, 9, true, "three")]).unwrap();
    b.report(&main(), 1, vec![ann(8, 6, 8, 7, Severity::Error, 1, true, "four")]).unwrap();
    b.set_document(&main(), nine_line_doc());
    b.report(&consts(), 1, vec![ann(0, 15, 0, 15, Severity::Error, 0, true, "two")]).unwrap();
    b.flush();

    let ea = a.current_excerpts();
    let eb = b.current_excerpts();
    assert_eq!(ea.len(), eb.len());
    for (x, y) in ea.iter().zip(eb.iter()) {
        assert!(x.same_content(y));
    }
    // Paths are displayed in a stable order: consts.rs sorts before main.rs.
    assert_eq!(a.path_count(), 2);
    assert!(a.state_at(0).path.same_as(&consts()));
    assert!(a.state_at(1).path.same_as(&main()));
}

#[test]
fn determinism_recompute_twice_identical() {
    let mut e = engine(2, 1);
    let p = || path("/test/main.rs");
    e.set_document(&p(), nine_line_doc());
    e.report(
        &p(),
        7,
        vec![
            ann(2, 0, 2, 4, Severity::Warning, 0, true, "w"),
            ann(6, 0, 6, 4, Severity::Error, 1, true, "e"),
        ],
    )
    .unwrap();
    e.flush();
    let first = e.current_excerpts();
    // Flushing again with an unchanged ledger recomputes to the identical
    // sequence, and the reconciler reports nothing to change.
    let ops = e.flush();
    assert!(ops.is_empty());
    let second = e.current_excerpts();
    assert_eq!(first.len(), second.len());
    for (x, y) in first.iter().zip(second.iter()) {
        assert!(x.same_content(y));
    }
}

#[test]
fn reconcile_inserts_then_replaces_on_document_change() {
    let mut e = engine(2, 0);
    let p = || path("/test/main.rs");
    e.set_document(&p(), nine_line_doc());
    e.report(&p(), 1, vec![ann(4, 0, 4, 2, Severity::Error, 0, true, "m")]).unwrap();
    let ops = e.flush();
    // From an empty display, every step is an insertion.
    assert!(!ops.is_empty());
    for op in &ops {
        assert!(matches!(op, ReconcileOp::Insert { .. }));
    }
    // Shrinking the document moves the clipped range but keeps the excerpt's
    // identity, so the update is a replacement, not a remove plus insert.
    e.set_document(&p(), doc(&[9, 9, 9]));
    let ops2 = e.flush();
    assert_eq!(ops2.len(), 1);
    assert!(matches!(ops2[0], ReconcileOp::Replace { .. }));
}

#[test]
fn reconcile_removes_vanished_excerpts_and_keeps_survivors() {
    // Two far-apart groups project two excerpts; when the later group's
    // producer withdraws it, the reconciler removes its excerpt and leaves
    // the surviving one alone.
    let mut e = engine(1, 0);
    let p = || path("/test/main.rs");
    e.set_document(&p(), nine_line_doc());
    e.report(&p(), 1, vec![ann(0, 0, 0, 1, Severity::Error, 0, true, "keep")]).unwrap();
    e.report(&p(), 2, vec![ann(7, 0, 7, 1, Severity::Error, 0, true, "drop")]).unwrap();
    e.flush();
    assert_eq!(e.current_excerpts().len(), 2);
    e.report(&p(), 2, vec![]).unwrap();
    let ops = e.flush();
    assert_eq!(ops.len(), 1);
    assert!(matches!(ops[0], ReconcileOp::Remove { at: 1 }));
    let ex = e.current_excerpts();
    assert_eq!(ex.len(), 1);
    assert_eq!(ex[0].start_row, 0);
    assert_eq!(ex[0].group_keys.len(), 1);
    assert_eq!(ex[0].group_keys[0].producer, 1);
}

#[test]
fn group_primary_is_first_flagged_in_report_order() {
    let mut e = engine(2, 0);
    let p = || path("/test/main.rs");
    e.set_document(&p(), nine_line_doc());
    e.report(
        &p(),
        1,
        vec![
            ann(2, 8, 2, 9, Severity::Information, 0, false, "supporting"),
            ann(7, 6, 7, 7, Severity::Error, 0, true, "use of moved value"),
            ann(8, 6, 8, 7, Severity::Error, 0, true, "another primary"),
        ],
    )
    .unwrap();
    e.flush();
    let st = e.state_at(0);
    assert_eq!(st.groups.len(), 1);
    assert_eq!(st.groups[0].primary_index, Some(1));
    assert_eq!(st.groups[0].anchor_index, 1);
    assert_eq!(st.groups[0].members.len(), 3);
    // The excerpt is anchored at the primary, not at the first member.
    assert_eq!(st.excerpts.len(), 1);
    assert_eq!(st.excerpts[0].primary_start.row, 7);
}

#[test]
fn group_without_primary_falls_back_to_first_in_display_order() {
    let mut e = engine(0, 0);
    let p = || path("/test/main.rs");
    e.set_document(&p(), nine_line_doc());
    e.report(
        &p(),
        1,
        vec![
            ann(5, 0, 5, 1, Severity::Information, 0, false, "later"),
            ann(3, 0, 3, 1, Severity::Information, 0, false, "earlier"),
        ],
    )
    .unwrap();
    e.flush();
    let st = e.state_at(0);
    assert_eq!(st.groups[0].primary_index, None);
    assert_eq!(st.groups[0].anchor_index, 1);
    assert_eq!(st.excerpts[0].primary_start.row, 3);
}

#[test]
fn groups_sorted_by_position_then_severity_then_producer() {
    let mut e = engine(0, 0);
    let p = || path("/test/main.rs");
    e.set_document(&p(), nine_line_doc());
    e.report(&p(), 2, vec![ann(4, 0, 4, 1, Severity::Warning, 11, true, "warn")]).unwrap();
    e.report(
        &p(),
        1,
        vec![
            ann(4, 0, 4, 1, Severity::Error, 12, true, "err"),
            ann(0, 0, 0, 1, Severity::Hint, 13, true, "hint"),
        ],
    )
    .unwrap();
    e.flush();
    let st = e.state_at(0);
    assert_eq!(st.groups.len(), 3);
    // Position first...
    assert_eq!(st.groups[0].group_id, 13);
    // ...then the more severe of the two at row 4...
    assert_eq!(st.groups[1].group_id, 12);
    assert_eq!(st.groups[1].producer, 1);
    // ...then the warning.
    assert_eq!(st.groups[2].group_id, 11);
    assert_eq!(st.groups[2].producer, 2);
}

#[test]
fn replacement_supersedes_previous_set() {
    // A report fully replaces the producer's previous set for the path.
    let mut e = engine(1, 0);
    let p = || path("/test/main.rs");
    e.set_document(&p(), nine_line_doc());
    e.report(&p(), 1, vec![ann(0, 0, 0, 1, Severity::Error, 0, true, "old")]).unwrap();
    e.flush();
    e.report(&p(), 1, vec![ann(6, 0, 6, 1, Severity::Error, 1, true, "new")]).unwrap();
    e.flush();
    let st = e.state_at(0);
    assert_eq!(st.groups.len(), 1);
    assert_eq!(st.groups[0].group_id, 1);
    assert_eq!(st.excerpts.len(), 1);
    assert_eq!(st.excerpts[0].start_row, 5);
    assert_eq!(st.excerpts[0].end_row, 7);
}

#[test]
fn path_without_document_keeps_groups_but_no_excerpts() {
    let mut e = engine(2, 0);
    let p = || path("/test/unknown.rs");
    e.report(&p(), 1, vec![ann(1, 0, 1, 1, Severity::Error, 0, true, "x")]).unwrap();
    e.flush();
    assert_eq!(e.path_count(), 1);
    assert_eq!(e.state_at(0).groups.len(), 1);
    assert!(e.state_at(0).excerpts.is_empty());
    assert!(e.excerpts_for(&p()).is_empty());
}

#[test]
fn payload_is_carried_opaquely() {
    // Message, source, code and payload pass through grouping untouched.
    let mut e = engine(2, 0);
    let p = || path("/test/main.rs");
    e.set_document(&p(), nine_line_doc());
    let mut a = ann(1, 8, 1, 9, Severity::Information, 1, false, "move occurs here");
    a.source = Some("borrowck".to_string());
    a.code = Some("E0382".to_string());
    a.data = Some("{\"hint\":1}".to_string());
    a.is_disk_based = true;
    a.is_unnecessary = true;
    e.report(&p(), 3, vec![a]).unwrap();
    e.flush();
    let st = e.state_at(0);
    let m = &st.groups[0].members[0];
    assert_eq!(m.message, "move occurs here");
    assert_eq!(m.source.as_deref(), Some("borrowck"));
    assert_eq!(m.code.as_deref(), Some("E0382"));
    assert_eq!(m.data.as_deref(), Some("{\"hint\":1}"));
    assert!(m.is_disk_based);
    assert!(m.is_unnecessary);
    assert_eq!(st.groups[0].group_id, 1);
    assert_eq!(st.groups[0].producer, 3);
}

#[test]
fn merge_adjacency_threshold_bridges_small_gaps() {
    // With a one-row adjacency allowance, context ranges separated by one
    // blank row still merge; with none, they stay apart.
    let strict = {
        let mut e = engine(1, 0);
        e.set_document(&path("/t.rs"), doc(&[4; 12]));
        e.report(
            &path("/t.rs"),
            1,
            vec![
                ann(1, 0, 1, 1, Severity::Error, 0, true, "a"),
                ann(5, 0, 5, 1, Severity::Error, 1, true, "b"),
            ],
        )
        .unwrap();
        e.flush();
        e.current_excerpts().len()
    };
    let lenient = {
        let mut e = engine(1, 1);
        e.set_document(&path("/t.rs"), doc(&[4; 12]));
        e.report(
            &path("/t.rs"),
            1,
            vec![
                ann(1, 0, 1, 1, Severity::Error, 0, true, "a"),
                ann(5, 0, 5, 1, Severity::Error, 1, true, "b"),
            ],
        )
        .unwrap();
        e.flush();
        e.current_excerpts().len()
    };
    assert_eq!(strict, 2);
    assert_eq!(lenient, 1);
}
