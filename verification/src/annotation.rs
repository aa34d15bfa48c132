use vstd::prelude::*;
use crate::point::{Point, point_le, point_lt};
use crate::severity::{Severity, severity_rank};

verus! {

/// One reported finding.
///
/// The range is version-relative and unclipped: it may run past the end of
/// the document and is only clipped when excerpts are projected.  The
/// message, source, code and payload are opaque to the engine; it carries
/// them but never interprets them.  `group_id` is scoped to one
/// (path, producer) pair and ties the annotation to its diagnostic group.
#[derive(Debug)]
pub struct Annotation {
    pub start: Point,
    pub end: Point,
    pub severity: Severity,
    pub message: String,
    pub group_id: u64,
    pub is_primary: bool,
    pub is_disk_based: bool,
    pub is_unnecessary: bool,
    pub source: Option<String>,
    pub code: Option<String>,
    pub data: Option<String>,
}

/// A well-formed range: the end does not precede the start.  This is the
/// only shape requirement on ingested annotations; ranges beyond the end of
/// the document are accepted.
pub open spec fn ann_valid(a: Annotation) -> bool {
    point_le(a.start, a.end)
}

/// The display order on annotations: by start position, then end position,
/// then severity (most severe first).  Ties beyond that are broken by the
/// caller (producer id, then original position in the report).
pub open spec fn ann_lt(a: Annotation, b: Annotation) -> bool {
    point_lt(a.start, b.start) || (a.start == b.start && (point_lt(a.end, b.end) || (a.end == b.end
        && severity_rank(a.severity) < severity_rank(b.severity))))
}

fn duplicate_text(s: &Option<String>) -> (r: Option<String>)
    ensures
        r == *s,
{
    match s {
        Option::None => Option::None,
        Option::Some(t) => Option::Some(t.clone()),
    }
}

impl Annotation {
    /// Decides `ann_valid(*self)`.
    pub fn range_valid(&self) -> (r: bool)
        ensures
            r == ann_valid(*self),
    {
        self.start.at_or_before(self.end)
    }

    /// Decides `ann_lt(*self, *other)`.
    pub fn display_before(&self, other: &Annotation) -> (r: bool)
        ensures
            r == ann_lt(*self, *other),
    {
        if self.start.before(other.start) {
            true
        } else if self.start == other.start {
            if self.end.before(other.end) {
                true
            } else if self.end == other.end {
                self.severity.rank() < other.severity.rank()
            } else {
                false
            }
        } else {
            false
        }
    }

    /// A fresh annotation equal to this one.
    pub fn duplicate(&self) -> (r: Annotation)
        ensures
            r == *self,
    {
        Annotation {
            start: self.start,
            end: self.end,
            severity: self.severity,
            message: self.message.clone(),
            group_id: self.group_id,
            is_primary: self.is_primary,
            is_disk_based: self.is_disk_based,
            is_unnecessary: self.is_unnecessary,
            source: duplicate_text(&self.source),
            code: duplicate_text(&self.code),
            data: duplicate_text(&self.data),
        }
    }
}

} // verus!
