use diagnostics::attachment::{ContextId, ContextKind};
use diagnostics::document::Document;
use diagnostics::pathname::PathKey;
use diagnostics::point::Point;
use diagnostics::severity::Severity;

#[test]
fn point_order_is_row_major() {
    let a = Point::new(1, 9);
    let b = Point::new(2, 0);
    let c = Point::new(2, 3);
    assert!(a.before(b));
    assert!(b.before(c));
    assert!(!c.before(b));
    assert!(b.at_or_before(b));
    assert!(!b.before(b));
}

#[test]
fn severity_ranks_errors_first() {
    assert_eq!(Severity::Error.rank(), 0);
    assert_eq!(Severity::Warning.rank(), 1);
    assert_eq!(Severity::Information.rank(), 2);
    assert_eq!(Severity::Hint.rank(), 3);
    assert!(Severity::Error.rank() < Severity::Hint.rank());
}

#[test]
fn document_clips_rows_and_columns() {
    let d = Document::new(vec![10, 0, 4]);
    assert_eq!(d.max_row(), 2);
    assert_eq!(d.line_len(0), 10);
    assert_eq!(d.line_len(7), 0);
    // Inside the document a point is untouched.
    let p = d.clip(Point::new(0, 10));
    assert_eq!((p.row, p.column), (0, 10));
    // A long column is pulled back to its line's end.
    let p = d.clip(Point::new(1, 3));
    assert_eq!((p.row, p.column), (1, 0));
    // A row past the end lands at the end of the last line.
    let p = d.clip(Point::new(9, 1));
    assert_eq!((p.row, p.column), (2, 4));
}

#[test]
fn empty_document_is_one_empty_line() {
    let d = Document::new(vec![]);
    assert_eq!(d.max_row(), 0);
    assert_eq!(d.line_len(0), 0);
    let p = d.clip(Point::new(5, 5));
    assert_eq!((p.row, p.column), (0, 0));
}

#[test]
fn path_keys_compare_bytewise() {
    let a = PathKey::new(b"/test/consts.rs".to_vec());
    let b = PathKey::new(b"/test/main.rs".to_vec());
    let prefix = PathKey::new(b"/test".to_vec());
    assert!(a.lex_before(&b));
    assert!(!b.lex_before(&a));
    assert!(prefix.lex_before(&a));
    assert!(a.same_as(&a.duplicate()));
    assert!(!a.same_as(&b));
}

#[test]
fn context_id_counts_up() {
    let mut id = ContextId(41);
    let got = id.post_inc();
    assert_eq!(got, ContextId(41));
    assert_eq!(id, ContextId(42));
    assert_eq!(id.post_inc(), ContextId(42));
}

#[test]
fn context_kinds_have_icons() {
    assert_eq!(ContextKind::File.icon(), "file");
    assert_eq!(ContextKind::Directory.icon(), "folder");
    assert_eq!(ContextKind::Symbol.icon(), "code");
    assert_eq!(ContextKind::FetchedUrl.icon(), "globe");
    assert_eq!(ContextKind::Thread.icon(), "message_bubbles");
    assert_eq!(ContextKind::File, ContextKind::File);
    assert_ne!(ContextKind::File, ContextKind::Thread);
}
