use vstd::prelude::*;
use crate::point::Point;

verus! {

/// What the projector needs to know about a document's text: the length of
/// every line, in order.  A document always has at least one line; empty
/// text is one empty line.
///
/// Annotation ranges are clipped against this model at projection time, so
/// a range that runs past the last line or past the end of a line is pulled
/// back to the nearest valid position instead of being rejected.
#[derive(Debug)]
pub struct Document {
    line_lens: Vec<u32>,
}

impl View for Document {
    type V = Seq<u32>;

    closed spec fn view(&self) -> Seq<u32> {
        self.line_lens@
    }
}

/// The last valid row of a document with lines `d`.
pub open spec fn doc_max_row(d: Seq<u32>) -> int {
    if d.len() == 0 {
        0
    } else {
        d.len() - 1
    }
}

/// The length of row `row`, or zero outside the document.
pub open spec fn doc_line_len(d: Seq<u32>, row: int) -> u32 {
    if 0 <= row < d.len() {
        d[row]
    } else {
        0
    }
}

/// `r` pulled into the valid row range of the document.
pub open spec fn clip_row(d: Seq<u32>, r: int) -> int {
    if r < 0 {
        0
    } else if r > doc_max_row(d) {
        doc_max_row(d)
    } else {
        r
    }
}

/// `p` pulled back to the nearest valid position: first the row, then the
/// column within that row.
pub open spec fn clip_point(d: Seq<u32>, p: Point) -> Point {
    let row = clip_row(d, p.row as int);
    let len = doc_line_len(d, row);
    let col = if row < p.row as int {
        len
    } else if p.column > len {
        len
    } else {
        p.column
    };
    Point { row: row as u32, column: col }
}

impl Document {
    /// A usable document: at least one line, and every row index fits the
    /// position type.
    pub open spec fn wf(&self) -> bool {
        1 <= self@.len() <= 0x1_0000_0000
    }

    /// Builds the document model from its line lengths; empty input is
    /// normalised to a single empty line.
    pub fn new(line_lens: Vec<u32>) -> (d: Document)
        requires
            line_lens@.len() <= 0xFFFF_FFFF,
        ensures
            d.wf(),
            line_lens@.len() > 0 ==> d@ == line_lens@,
            line_lens@.len() == 0 ==> d@ =~= seq![0u32],
    {
        let mut line_lens = line_lens;
        if line_lens.len() == 0 {
            line_lens.push(0);
        }
        Document { line_lens }
    }

    /// The last valid row.
    pub fn max_row(&self) -> (r: u32)
        requires
            self.wf(),
        ensures
            r as int == doc_max_row(self@),
    {
        (self.line_lens.len() - 1) as u32
    }

    /// The length of a row, or zero outside the document.
    pub fn line_len(&self, row: u32) -> (r: u32)
        ensures
            r == doc_line_len(self@, row as int),
    {
        if (row as usize) < self.line_lens.len() {
            self.line_lens[row as usize]
        } else {
            0
        }
    }

    /// Pulls a position back into the document.
    pub fn clip(&self, p: Point) -> (r: Point)
        requires
            self.wf(),
        ensures
            r == clip_point(self@, p),
    {
        let max = self.max_row();
        if p.row > max {
            Point { row: max, column: self.line_len(max) }
        } else {
            let len = self.line_len(p.row);
            if p.column > len {
                Point { row: p.row, column: len }
            } else {
                p
            }
        }
    }

    /// A fresh document with the same lines.
    pub fn duplicate(&self) -> (d: Document)
        ensures
            d@ == self@,
    {
        let mut out: Vec<u32> = Vec::new();
        let mut i: usize = 0;
        while i < self.line_lens.len()
            invariant
                i <= self.line_lens.len(),
                out@ == self.line_lens@.take(i as int),
            decreases self.line_lens.len() - i,
        {
            out.push(self.line_lens[i]);
            i = i + 1;
            proof {
                assert(out@ =~= self.line_lens@.take(i as int));
            }
        }
        proof {
            assert(out@ =~= self.line_lens@);
        }
        Document { line_lens: out }
    }
}

/// Clipping never leaves the document: the clipped row is valid and the
/// clipped column is within its line.
pub proof fn lemma_clip_point_in_bounds(d: Seq<u32>, p: Point)
    requires
        d.len() >= 1,
    ensures
        0 <= clip_point(d, p).row as int <= doc_max_row(d),
        clip_point(d, p).column <= doc_line_len(d, clip_point(d, p).row as int),
{
}

/// Clipping keeps the order of positions.
pub proof fn lemma_clip_point_monotone(d: Seq<u32>, a: Point, b: Point)
    requires
        crate::point::point_le(a, b),
    ensures
        crate::point::point_le(clip_point(d, a), clip_point(d, b)),
{
}

} // verus!
