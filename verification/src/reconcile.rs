use vstd::prelude::*;
use crate::excerpt::{Excerpt, ExcerptV, excerpt_views};
use crate::group::GroupKey;

verus! {

/// One step a renderer applies to its displayed excerpt list.  Positions
/// refer to the list as it stands when the step is applied, steps being
/// applied in order.
#[derive(Debug)]
pub enum ReconcileOp {
    Insert { at: usize, excerpt: Excerpt },
    Remove { at: usize },
    Replace { at: usize, excerpt: Excerpt },
}

/// The mathematical value of a reconcile step.
#[verifier::ext_equal]
pub enum ReconcileOpV {
    Insert { at: int, excerpt: ExcerptV },
    Remove { at: int },
    Replace { at: int, excerpt: ExcerptV },
}

impl View for ReconcileOp {
    type V = ReconcileOpV;

    open spec fn view(&self) -> ReconcileOpV {
        match self {
            ReconcileOp::Insert { at, excerpt } => ReconcileOpV::Insert {
                at: *at as int,
                excerpt: excerpt@,
            },
            ReconcileOp::Remove { at } => ReconcileOpV::Remove { at: *at as int },
            ReconcileOp::Replace { at, excerpt } => ReconcileOpV::Replace {
                at: *at as int,
                excerpt: excerpt@,
            },
        }
    }
}

/// The values of a sequence of steps.
pub open spec fn op_views(s: Seq<ReconcileOp>) -> Seq<ReconcileOpV> {
    s.map_values(|o: ReconcileOp| o@)
}

/// One step applied to an excerpt list; `None` when its position is out of
/// range.
pub open spec fn apply_op(s: Seq<ExcerptV>, op: ReconcileOpV) -> Option<Seq<ExcerptV>> {
    match op {
        ReconcileOpV::Insert { at, excerpt } => if 0 <= at <= s.len() {
            Option::Some(s.insert(at, excerpt))
        } else {
            Option::None
        },
        ReconcileOpV::Remove { at } => if 0 <= at < s.len() {
            Option::Some(s.remove(at))
        } else {
            Option::None
        },
        ReconcileOpV::Replace { at, excerpt } => if 0 <= at < s.len() {
            Option::Some(s.update(at, excerpt))
        } else {
            Option::None
        },
    }
}

/// A whole edit script applied in order.
pub open spec fn apply_ops(s: Seq<ExcerptV>, ops: Seq<ReconcileOpV>) -> Option<Seq<ExcerptV>>
    decreases ops.len(),
{
    if ops.len() == 0 {
        Option::Some(s)
    } else {
        match apply_op(s, ops[0]) {
            Option::None => Option::None,
            Option::Some(t) => apply_ops(t, ops.drop_first()),
        }
    }
}

/// Appending a step to a script applies it after the rest.
pub proof fn lemma_apply_ops_push(s: Seq<ExcerptV>, ops: Seq<ReconcileOpV>, op: ReconcileOpV)
    ensures
        apply_ops(s, ops.push(op)) == match apply_ops(s, ops) {
            Option::None => Option::<Seq<ExcerptV>>::None,
            Option::Some(t) => apply_op(t, op),
        },
    decreases ops.len(),
{
    if ops.len() == 0 {
        assert(ops.push(op)[0] == op);
        assert(ops.push(op).drop_first() =~= Seq::<ReconcileOpV>::empty());
        match apply_op(s, op) {
            Option::None => {
                assert(apply_ops(s, ops.push(op)) is None);
            },
            Option::Some(t) => {
                assert(apply_ops(t, Seq::<ReconcileOpV>::empty()) == Option::Some(t));
                assert(apply_ops(s, ops.push(op)) == Option::Some(t));
            },
        }
    } else {
        assert(ops.push(op)[0] == ops[0]);
        assert(ops.push(op).drop_first() =~= ops.drop_first().push(op));
        match apply_op(s, ops[0]) {
            Option::None => {
            },
            Option::Some(t) => {
                lemma_apply_ops_push(t, ops.drop_first(), op);
            },
        }
    }
}

/// Excerpt identity across recomputations: the path together with the
/// contributing group keys, not the position, which text edits may shift.
pub open spec fn same_identity(a: ExcerptV, b: ExcerptV) -> bool {
    a.path == b.path && a.group_keys == b.group_keys
}

impl Excerpt {
    /// Decides whether two excerpts are the same logical excerpt.
    pub fn identity_matches(&self, other: &Excerpt) -> (r: bool)
        ensures
            r == same_identity(self@, other@),
    {
        if !self.path.same_as(&other.path) {
            return false;
        }
        if self.group_keys.len() != other.group_keys.len() {
            proof {
                assert(self@.group_keys != other@.group_keys);
            }
            return false;
        }
        let mut i: usize = 0;
        while i < self.group_keys.len()
            invariant
                i <= self.group_keys.len(),
                self.group_keys.len() == other.group_keys.len(),
                forall|j: int| 0 <= j < i ==> self.group_keys@[j] == other.group_keys@[j],
            decreases self.group_keys.len() - i,
        {
            if !(self.group_keys[i].producer == other.group_keys[i].producer
                && self.group_keys[i].group_id == other.group_keys[i].group_id) {
                proof {
                    assert(self@.group_keys[i as int] != other@.group_keys[i as int]);
                }
                return false;
            }
            i = i + 1;
        }
        proof {
            assert(self.group_keys@ =~= other.group_keys@);
        }
        true
    }

    /// Decides full equality of two excerpt values.
    pub fn same_content(&self, other: &Excerpt) -> (r: bool)
        ensures
            r == (self@ == other@),
    {
        if !self.identity_matches(other) {
            return false;
        }
        let r = self.start_row == other.start_row && self.end_row == other.end_row
            && self.primary_start == other.primary_start && self.primary_end == other.primary_end
            && self.gap_before == other.gap_before;
        proof {
            if r {
                assert(self@ =~= other@);
            }
        }
        r
    }
}

/// Whether the identity of `probe` still occurs at or after `from`.
fn identity_in_suffix(list: &Vec<Excerpt>, from: usize, probe: &Excerpt) -> (r: bool)
    ensures
        r == exists|j: int| from <= j < list@.len() && same_identity(
            (#[trigger] list@[j])@,
            probe@,
        ),
{
    let mut j: usize = from;
    while j < list.len()
        invariant
            from <= j <= list@.len() || (from > list@.len() && j == from),
            forall|k: int| from <= k < j ==> !same_identity((#[trigger] list@[k])@, probe@),
        decreases list.len() - j,
    {
        if list[j].identity_matches(probe) {
            return true;
        }
        j = j + 1;
    }
    false
}

/// Computes the edit script that takes the previously displayed excerpt
/// list to the newly computed one.
///
/// Excerpts whose identity persists are kept in place (their content is
/// replaced only when it changed), excerpts whose identity is gone are
/// removed, and new identities are inserted at their position, so a
/// renderer can keep state attached to surviving excerpts.  Applying the
/// returned steps in order to the old list is proved to yield the new one.
#[verifier::loop_isolation(false)]
pub fn reconcile(prev: &Vec<Excerpt>, next: &Vec<Excerpt>) -> (ops: Vec<ReconcileOp>)
    ensures
        apply_ops(excerpt_views(prev@), op_views(ops@)) == Option::Some(excerpt_views(next@)),
{
    let ghost pv = excerpt_views(prev@);
    let ghost nv = excerpt_views(next@);
    let mut ops: Vec<ReconcileOp> = Vec::new();
    let mut i: usize = 0;
    let mut j: usize = 0;
    proof {
        assert(op_views(ops@) =~= Seq::<ReconcileOpV>::empty());
        assert(nv.take(0) + pv.skip(0) =~= pv);
    }
    while i < prev.len() || j < next.len()
        invariant
            i <= prev.len(),
            j <= next.len(),
            apply_ops(pv, op_views(ops@)) == Option::Some(nv.take(j as int) + pv.skip(i as int)),
        decreases (prev.len() - i) + (next.len() - j),
    {
        let ghost cur = nv.take(j as int) + pv.skip(i as int);
        proof {
            assert(cur.len() == j + (pv.len() - i));
            if i < prev.len() {
                assert(pv[i as int] == (#[trigger] prev@[i as int])@);
            }
            if j < next.len() {
                assert(nv[j as int] == (#[trigger] next@[j as int])@);
            }
        }
        if i < prev.len() && j < next.len() && prev[i].identity_matches(&next[j]) {
            proof {
                assert(cur[j as int] == pv[i as int]);
            }
            if prev[i].same_content(&next[j]) {
                proof {
                    assert(nv.take(j + 1) + pv.skip(i + 1) =~= cur);
                }
            } else {
                let op = ReconcileOp::Replace { at: j, excerpt: next[j].duplicate() };
                let ghost ops0 = ops@;
                proof {
                    lemma_apply_ops_push(pv, op_views(ops0), op@);
                }
                ops.push(op);
                proof {
                    assert(op_views(ops@) =~= op_views(ops0).push(op@));
                    assert(apply_op(cur, op@) == Option::Some(cur.update(j as int, nv[j as int])));
                    assert(cur.update(j as int, nv[j as int]) =~= nv.take(j + 1) + pv.skip(i + 1));
                }
            }
            i = i + 1;
            j = j + 1;
        } else if i < prev.len() && !identity_in_suffix(next, j, &prev[i]) {
            let op = ReconcileOp::Remove { at: j };
            let ghost ops0 = ops@;
            proof {
                assert(cur[j as int] == pv[i as int]);
                lemma_apply_ops_push(pv, op_views(ops0), op@);
            }
            ops.push(op);
            proof {
                assert(op_views(ops@) =~= op_views(ops0).push(op@));
                assert(apply_op(cur, op@) == Option::Some(cur.remove(j as int)));
                assert(cur.remove(j as int) =~= nv.take(j as int) + pv.skip(i + 1));
            }
            i = i + 1;
        } else {
            proof {
                if i < prev.len() {
                    let w = choose|w: int| j <= w < next@.len() && same_identity(
                        (#[trigger] next@[w])@,
                        prev@[i as int]@,
                    );
                    assert(j < next.len());
                }
            }
            let op = ReconcileOp::Insert { at: j, excerpt: next[j].duplicate() };
            let ghost ops0 = ops@;
            proof {
                lemma_apply_ops_push(pv, op_views(ops0), op@);
            }
            ops.push(op);
            proof {
                assert(op_views(ops@) =~= op_views(ops0).push(op@));
                assert(apply_op(cur, op@) == Option::Some(cur.insert(j as int, nv[j as int])));
                assert(cur.insert(j as int, nv[j as int]) =~= nv.take(j + 1) + pv.skip(i as int));
            }
            j = j + 1;
        }
    }
    proof {
        assert(nv.take(j as int) + pv.skip(i as int) =~= nv);
    }
    ops
}

} // verus!
