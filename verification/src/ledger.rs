use vstd::prelude::*;
use crate::annotation::{Annotation, ann_valid};
use crate::pathname::{PathKey, bytes_lt, lemma_bytes_lt_asymmetric, lemma_bytes_lt_total,
    lemma_bytes_lt_transitive};

verus! {

/// One ledger entry: the complete set of annotations that one producer
/// currently reports for one path.  An update replaces the whole set.
#[derive(Debug)]
pub struct LedgerEntry {
    pub path: PathKey,
    pub producer: u64,
    pub annotations: Vec<Annotation>,
}

/// The mathematical value of a ledger entry.
#[verifier::ext_equal]
pub struct LedgerEntryV {
    pub path: Seq<u8>,
    pub producer: u64,
    pub annotations: Seq<Annotation>,
}

impl View for LedgerEntry {
    type V = LedgerEntryV;

    open spec fn view(&self) -> LedgerEntryV {
        LedgerEntryV { path: self.path@, producer: self.producer, annotations: self.annotations@ }
    }
}

/// Every annotation of the set is a well-formed range.
pub open spec fn anns_valid(s: Seq<Annotation>) -> bool {
    forall|i: int| 0 <= i < s.len() ==> ann_valid(#[trigger] s[i])
}

/// Every entry of the ledger holds only well-formed ranges.
pub open spec fn entries_valid(es: Seq<LedgerEntryV>) -> bool {
    forall|i: int| 0 <= i < es.len() ==> anns_valid((#[trigger] es[i]).annotations)
}

/// Order of ledger keys: by path, then by producer id.
pub open spec fn entry_key_lt(a: LedgerEntryV, b: LedgerEntryV) -> bool {
    bytes_lt(a.path, b.path) || (a.path == b.path && a.producer < b.producer)
}

/// Two entries hold the same (path, producer) key.
pub open spec fn entry_key_eq(a: LedgerEntryV, b: LedgerEntryV) -> bool {
    a.path == b.path && a.producer == b.producer
}

/// Entries strictly sorted by key; keys are therefore unique.
pub open spec fn ledger_sorted(s: Seq<LedgerEntryV>) -> bool {
    forall|i: int, j: int| 0 <= i < j < s.len() ==> entry_key_lt(#[trigger] s[i], #[trigger] s[j])
}

/// The ledger after an entry is stored: the entry with the same key is
/// replaced, or the new entry is inserted at its sorted position.
pub open spec fn ledger_put(s: Seq<LedgerEntryV>, e: LedgerEntryV) -> Seq<LedgerEntryV>
    decreases s.len(),
{
    if s.len() == 0 {
        seq![e]
    } else if entry_key_lt(e, s[0]) {
        seq![e] + s
    } else if entry_key_eq(e, s[0]) {
        seq![e] + s.drop_first()
    } else {
        seq![s[0]] + ledger_put(s.drop_first(), e)
    }
}

/// The ledger after the entry for (path, producer) is deleted; unchanged
/// when there is no such entry.
pub open spec fn ledger_drop(s: Seq<LedgerEntryV>, path: Seq<u8>, producer: u64) -> Seq<
    LedgerEntryV,
>
    decreases s.len(),
{
    if s.len() == 0 {
        Seq::empty()
    } else if s[0].path == path && s[0].producer == producer {
        s.drop_first()
    } else {
        seq![s[0]] + ledger_drop(s.drop_first(), path, producer)
    }
}

/// Key order facts lifted from byte order: totality, asymmetry,
/// transitivity, and congruence with key equality.
pub proof fn lemma_entry_key_order(a: LedgerEntryV, b: LedgerEntryV, c: LedgerEntryV)
    ensures
        entry_key_lt(a, b) || entry_key_lt(b, a) || entry_key_eq(a, b),
        !(entry_key_lt(a, b) && entry_key_lt(b, a)),
        !(entry_key_lt(a, b) && entry_key_eq(a, b)),
        entry_key_lt(a, b) && entry_key_lt(b, c) ==> entry_key_lt(a, c),
        entry_key_eq(a, b) && entry_key_lt(b, c) ==> entry_key_lt(a, c),
        entry_key_eq(a, b) && entry_key_lt(c, a) ==> entry_key_lt(c, b),
{
    lemma_bytes_lt_total(a.path, b.path);
    lemma_bytes_lt_asymmetric(a.path, b.path);
    if bytes_lt(a.path, b.path) && bytes_lt(b.path, c.path) {
        lemma_bytes_lt_transitive(a.path, b.path, c.path);
    }
}

/// Where the new entry lands: with `i` the first position whose key is not
/// below `e`, `ledger_put` replaces there on a key match and inserts there
/// otherwise, and the result is sorted again.
pub proof fn lemma_ledger_put_split(s: Seq<LedgerEntryV>, e: LedgerEntryV, i: int)
    requires
        0 <= i <= s.len(),
        forall|j: int| 0 <= j < i ==> entry_key_lt(#[trigger] s[j], e),
        i < s.len() ==> !entry_key_lt(s[i], e),
    ensures
        ledger_put(s, e) == if i < s.len() && entry_key_eq(s[i], e) {
            s.take(i) + seq![e] + s.skip(i + 1)
        } else {
            s.take(i) + seq![e] + s.skip(i)
        },
    decreases i,
{
    if i == 0 {
        if s.len() == 0 {
            assert(ledger_put(s, e) =~= s.take(0) + seq![e] + s.skip(0));
        } else {
            lemma_entry_key_order(e, s[0], s[0]);
            if entry_key_lt(e, s[0]) {
                assert(ledger_put(s, e) =~= s.take(0) + seq![e] + s.skip(0));
            } else {
                assert(entry_key_eq(e, s[0]));
                assert(entry_key_eq(s[0], e));
                assert(ledger_put(s, e) == seq![e] + s.drop_first());
                assert(ledger_put(s, e) =~= s.take(0) + seq![e] + s.skip(1));
            }
        }
    } else {
        lemma_entry_key_order(e, s[0], s[0]);
        assert(entry_key_lt(s[0], e));
        assert(!entry_key_lt(e, s[0]));
        assert(!entry_key_eq(e, s[0]));
        let rest = s.drop_first();
        assert(forall|j: int| 0 <= j < i - 1 ==> entry_key_lt(#[trigger] rest[j], e));
        lemma_ledger_put_split(rest, e, i - 1);
        if i < s.len() && entry_key_eq(s[i], e) {
            assert(rest[i - 1] == s[i]);
            assert(seq![s[0]] + (rest.take(i - 1) + seq![e] + rest.skip(i)) =~= s.take(i)
                + seq![e] + s.skip(i + 1));
        } else {
            assert(seq![s[0]] + (rest.take(i - 1) + seq![e] + rest.skip(i - 1)) =~= s.take(i)
                + seq![e] + s.skip(i));
        }
    }
}

/// Storing keeps the ledger sorted.
pub proof fn lemma_ledger_put_sorted(s: Seq<LedgerEntryV>, e: LedgerEntryV)
    requires
        ledger_sorted(s),
    ensures
        ledger_sorted(ledger_put(s, e)),
    decreases s.len(),
{
    if s.len() == 0 {
    } else if entry_key_lt(e, s[0]) {
        let out = seq![e] + s;
        assert forall|i: int, j: int| 0 <= i < j < out.len() implies entry_key_lt(
            out[i],
            out[j],
        ) by {
            lemma_entry_key_order(e, s[0], s[j - 1]);
        }
    } else if entry_key_eq(e, s[0]) {
        let out = seq![e] + s.drop_first();
        assert forall|i: int, j: int| 0 <= i < j < out.len() implies entry_key_lt(
            out[i],
            out[j],
        ) by {
            if i == 0 {
                assert(entry_key_lt(s[0], s[j]));
                lemma_entry_key_order(e, s[0], s[j]);
            } else {
                assert(entry_key_lt(s[i], s[j]));
            }
        }
    } else {
        lemma_entry_key_order(e, s[0], s[0]);
        assert(entry_key_lt(s[0], e));
        let rest = s.drop_first();
        assert(ledger_sorted(rest)) by {
            assert(forall|i: int, j: int| 0 <= i < j < rest.len() ==> entry_key_lt(
                #[trigger] rest[i],
                #[trigger] rest[j],
            ));
        }
        lemma_ledger_put_sorted(rest, e);
        lemma_ledger_put_membership(rest, e);
        let out = seq![s[0]] + ledger_put(rest, e);
        assert forall|i: int, j: int| 0 <= i < j < out.len() implies entry_key_lt(
            out[i],
            out[j],
        ) by {
            if i == 0 {
                let x = ledger_put(rest, e)[j - 1];
                assert(x == e || rest.contains(x));
                if x == e {
                } else {
                    let k = choose|k: int| 0 <= k < rest.len() && rest[k] == x;
                    assert(entry_key_lt(s[0], s[k + 1]));
                }
            }
        }
    }
}

/// Every element of the stored ledger is the new entry or an old entry.
pub proof fn lemma_ledger_put_membership(s: Seq<LedgerEntryV>, e: LedgerEntryV)
    ensures
        forall|i: int| 0 <= i < ledger_put(s, e).len() ==> #[trigger] ledger_put(s, e)[i] == e
            || s.contains(ledger_put(s, e)[i]),
    decreases s.len(),
{
    if s.len() == 0 {
    } else if entry_key_lt(e, s[0]) {
    } else if entry_key_eq(e, s[0]) {
        assert forall|i: int| 0 <= i < ledger_put(s, e).len() implies #[trigger] ledger_put(
            s,
            e,
        )[i] == e || s.contains(ledger_put(s, e)[i]) by {
            if i > 0 {
                assert(ledger_put(s, e)[i] == s[i]);
            }
        }
    } else {
        lemma_ledger_put_membership(s.drop_first(), e);
        let rest = s.drop_first();
        assert forall|i: int| 0 <= i < ledger_put(s, e).len() implies #[trigger] ledger_put(
            s,
            e,
        )[i] == e || s.contains(ledger_put(s, e)[i]) by {
            if i > 0 {
                let x = ledger_put(rest, e)[i - 1];
                assert(x == e || rest.contains(x));
                if x != e {
                    let k = choose|k: int| 0 <= k < rest.len() && rest[k] == x;
                    assert(s[k + 1] == x);
                }
            } else {
                assert(s[0] == ledger_put(s, e)[0]);
            }
        }
    }
}

/// Where the deleted entry stood: with `i` the position of the (unique) key
/// match, `ledger_drop` closes the gap; with no match it changes nothing.
pub proof fn lemma_ledger_drop_split(s: Seq<LedgerEntryV>, path: Seq<u8>, producer: u64, i: int)
    requires
        0 <= i <= s.len(),
        forall|j: int| 0 <= j < i ==> !(#[trigger] s[j].path == path && s[j].producer == producer),
        i < s.len() ==> s[i].path == path && s[i].producer == producer,
    ensures
        ledger_drop(s, path, producer) == if i < s.len() {
            s.take(i) + s.skip(i + 1)
        } else {
            s
        },
    decreases i,
{
    if i == 0 {
        if i < s.len() {
            assert(ledger_drop(s, path, producer) =~= s.take(0) + s.skip(1));
        }
    } else {
        let rest = s.drop_first();
        lemma_ledger_drop_split(rest, path, producer, i - 1);
        if i < s.len() {
            assert(seq![s[0]] + (rest.take(i - 1) + rest.skip(i)) =~= s.take(i) + s.skip(i + 1));
        } else {
            assert(seq![s[0]] + rest =~= s);
        }
    }
}

/// Deleting keeps the ledger sorted and leaves no entry under the key.
pub proof fn lemma_ledger_drop_sorted(s: Seq<LedgerEntryV>, path: Seq<u8>, producer: u64)
    requires
        ledger_sorted(s),
    ensures
        ledger_sorted(ledger_drop(s, path, producer)),
        forall|i: int| 0 <= i < ledger_drop(s, path, producer).len() ==> !(#[trigger] ledger_drop(
            s,
            path,
            producer,
        )[i].path == path && ledger_drop(s, path, producer)[i].producer == producer),
    decreases s.len(),
{
    if s.len() == 0 {
    } else if s[0].path == path && s[0].producer == producer {
        let out = s.drop_first();
        assert forall|i: int| 0 <= i < out.len() implies !(#[trigger] out[i].path == path
            && out[i].producer == producer) by {
            assert(entry_key_lt(s[0], s[i + 1]));
            lemma_entry_key_order(s[0], s[i + 1], s[i + 1]);
        }
    } else {
        let rest = s.drop_first();
        assert(ledger_sorted(rest)) by {
            assert(forall|i: int, j: int| 0 <= i < j < rest.len() ==> entry_key_lt(
                #[trigger] rest[i],
                #[trigger] rest[j],
            ));
        }
        lemma_ledger_drop_sorted(rest, path, producer);
        lemma_ledger_drop_membership(rest, path, producer);
        let out = seq![s[0]] + ledger_drop(rest, path, producer);
        assert forall|i: int, j: int| 0 <= i < j < out.len() implies entry_key_lt(
            out[i],
            out[j],
        ) by {
            if i == 0 {
                let x = ledger_drop(rest, path, producer)[j - 1];
                assert(rest.contains(x));
                let k = choose|k: int| 0 <= k < rest.len() && rest[k] == x;
                assert(entry_key_lt(s[0], s[k + 1]));
            }
        }
    }
}

/// Every element of the shrunk ledger is an old entry.
pub proof fn lemma_ledger_drop_membership(s: Seq<LedgerEntryV>, path: Seq<u8>, producer: u64)
    ensures
        forall|i: int| 0 <= i < ledger_drop(s, path, producer).len() ==> s.contains(
            #[trigger] ledger_drop(s, path, producer)[i],
        ),
    decreases s.len(),
{
    if s.len() == 0 {
    } else if s[0].path == path && s[0].producer == producer {
        assert forall|i: int| 0 <= i < ledger_drop(s, path, producer).len() implies s.contains(
            #[trigger] ledger_drop(s, path, producer)[i],
        ) by {
            assert(s[i + 1] == ledger_drop(s, path, producer)[i]);
        }
    } else {
        let rest = s.drop_first();
        lemma_ledger_drop_membership(rest, path, producer);
        assert forall|i: int| 0 <= i < ledger_drop(s, path, producer).len() implies s.contains(
            #[trigger] ledger_drop(s, path, producer)[i],
        ) by {
            if i > 0 {
                let x = ledger_drop(rest, path, producer)[i - 1];
                assert(rest.contains(x));
                let k = choose|k: int| 0 <= k < rest.len() && rest[k] == x;
                assert(s[k + 1] == x);
            } else {
                assert(s[0] == ledger_drop(s, path, producer)[0]);
            }
        }
    }
}

/// Stores to two different keys commute: the ledger ends up the same
/// whichever report arrives first.
pub proof fn lemma_ledger_put_commutes(s: Seq<LedgerEntryV>, e1: LedgerEntryV, e2: LedgerEntryV)
    requires
        !entry_key_eq(e1, e2),
    ensures
        ledger_put(ledger_put(s, e1), e2) == ledger_put(ledger_put(s, e2), e1),
    decreases s.len(),
{
    reveal_with_fuel(ledger_put, 4);
    lemma_entry_key_order(e1, e2, e2);
    lemma_entry_key_order(e2, e1, e1);
    if s.len() == 0 {
        assert(seq![e1].drop_first() =~= Seq::<LedgerEntryV>::empty());
        assert(seq![e2].drop_first() =~= Seq::<LedgerEntryV>::empty());
        if entry_key_lt(e1, e2) {
            assert(ledger_put(seq![e1], e2) =~= seq![e1, e2]);
            assert(ledger_put(seq![e2], e1) =~= seq![e1, e2]);
        } else {
            assert(ledger_put(seq![e1], e2) =~= seq![e2, e1]);
            assert(ledger_put(seq![e2], e1) =~= seq![e2, e1]);
        }
    } else {
        let s0 = s[0];
        let r = s.drop_first();
        lemma_entry_key_order(e1, s0, e2);
        lemma_entry_key_order(e2, s0, e1);
        lemma_entry_key_order(s0, e1, e2);
        lemma_entry_key_order(s0, e2, e1);
        assert((seq![e1] + s).drop_first() =~= s);
        assert((seq![e2] + s).drop_first() =~= s);
        assert((seq![e1] + r).drop_first() =~= r);
        assert((seq![e2] + r).drop_first() =~= r);
        if entry_key_lt(e1, s0) && entry_key_lt(e2, s0) {
            if entry_key_lt(e1, e2) {
                assert(ledger_put(ledger_put(s, e1), e2) =~= seq![e1, e2] + s);
                assert(ledger_put(ledger_put(s, e2), e1) =~= seq![e1, e2] + s);
            } else {
                assert(ledger_put(ledger_put(s, e1), e2) =~= seq![e2, e1] + s);
                assert(ledger_put(ledger_put(s, e2), e1) =~= seq![e2, e1] + s);
            }
        } else if entry_key_lt(e1, s0) && entry_key_eq(e2, s0) {
            assert(entry_key_lt(e1, e2));
            assert(ledger_put(ledger_put(s, e1), e2) =~= seq![e1, e2] + r);
            assert(ledger_put(ledger_put(s, e2), e1) =~= seq![e1, e2] + r);
        } else if entry_key_lt(e1, s0) && entry_key_lt(s0, e2) {
            assert(entry_key_lt(e1, e2));
            assert(ledger_put(ledger_put(s, e1), e2) =~= seq![e1, s0] + ledger_put(r, e2));
            assert(ledger_put(ledger_put(s, e2), e1) =~= seq![e1, s0] + ledger_put(r, e2));
        } else if entry_key_eq(e1, s0) && entry_key_lt(e2, s0) {
            assert(entry_key_lt(e2, e1));
            assert(ledger_put(ledger_put(s, e1), e2) =~= seq![e2, e1] + r);
            assert(ledger_put(ledger_put(s, e2), e1) =~= seq![e2, e1] + r);
        } else if entry_key_eq(e1, s0) && entry_key_eq(e2, s0) {
            assert(entry_key_eq(e1, e2));
            assert(false);
        } else if entry_key_eq(e1, s0) && entry_key_lt(s0, e2) {
            assert(entry_key_lt(e1, e2));
            assert(ledger_put(ledger_put(s, e1), e2) =~= seq![e1] + ledger_put(r, e2));
            assert(ledger_put(ledger_put(s, e2), e1) =~= seq![e1] + ledger_put(r, e2));
        } else if entry_key_lt(s0, e1) && entry_key_lt(e2, s0) {
            assert(entry_key_lt(e2, e1));
            assert(ledger_put(ledger_put(s, e1), e2) =~= seq![e2, s0] + ledger_put(r, e1));
            assert(ledger_put(ledger_put(s, e2), e1) =~= seq![e2, s0] + ledger_put(r, e1));
        } else if entry_key_lt(s0, e1) && entry_key_eq(e2, s0) {
            assert(entry_key_lt(e2, e1));
            assert(ledger_put(ledger_put(s, e1), e2) =~= seq![e2] + ledger_put(r, e1));
            assert(ledger_put(ledger_put(s, e2), e1) =~= seq![e2] + ledger_put(r, e1));
        } else {
            assert(entry_key_lt(s0, e1) && entry_key_lt(s0, e2));
            lemma_ledger_put_commutes(r, e1, e2);
            assert(ledger_put(s, e1) == seq![s0] + ledger_put(r, e1));
            assert(ledger_put(s, e2) == seq![s0] + ledger_put(r, e2));
            assert((seq![s0] + ledger_put(r, e1)).drop_first() =~= ledger_put(r, e1));
            assert((seq![s0] + ledger_put(r, e2)).drop_first() =~= ledger_put(r, e2));
            assert(ledger_put(ledger_put(s, e1), e2) =~= seq![s0] + ledger_put(ledger_put(r, e1), e2));
            assert(ledger_put(ledger_put(s, e2), e1) =~= seq![s0] + ledger_put(ledger_put(r, e2), e1));
        }
    }
}

/// A later report to the same key fully supersedes an earlier one.
pub proof fn lemma_ledger_put_supersedes(s: Seq<LedgerEntryV>, e1: LedgerEntryV, e2: LedgerEntryV)
    requires
        entry_key_eq(e1, e2),
    ensures
        ledger_put(ledger_put(s, e1), e2) == ledger_put(s, e2),
    decreases s.len(),
{
    reveal_with_fuel(ledger_put, 4);
    lemma_entry_key_order(e1, e2, e2);
    lemma_entry_key_order(e2, e1, e1);
    if s.len() == 0 {
        assert(ledger_put(ledger_put(s, e1), e2) =~= seq![e2]);
        assert(ledger_put(s, e2) =~= seq![e2]);
    } else {
        let s0 = s[0];
        let r = s.drop_first();
        lemma_entry_key_order(e1, s0, e2);
        lemma_entry_key_order(e2, s0, e1);
        lemma_entry_key_order(s0, e1, e2);
        lemma_entry_key_order(s0, e2, e1);
        assert((seq![e1] + s).drop_first() =~= s);
        assert((seq![e1] + r).drop_first() =~= r);
        if entry_key_lt(e1, s0) {
            assert(entry_key_lt(e2, s0));
            assert(ledger_put(ledger_put(s, e1), e2) =~= seq![e2] + s);
            assert(ledger_put(s, e2) =~= seq![e2] + s);
        } else if entry_key_eq(e1, s0) {
            assert(entry_key_eq(e2, s0));
            assert(ledger_put(ledger_put(s, e1), e2) =~= seq![e2] + r);
            assert(ledger_put(s, e2) =~= seq![e2] + r);
        } else {
            assert(entry_key_lt(s0, e1));
            assert(!entry_key_lt(e2, s0) && !entry_key_eq(e2, s0));
            lemma_ledger_put_supersedes(r, e1, e2);
            assert(ledger_put(s, e1) == seq![s0] + ledger_put(r, e1));
            assert((seq![s0] + ledger_put(r, e1)).drop_first() =~= ledger_put(r, e1));
            assert(ledger_put(ledger_put(s, e1), e2) =~= seq![s0] + ledger_put(ledger_put(r, e1), e2));
            assert(ledger_put(s, e2) =~= seq![s0] + ledger_put(r, e2));
        }
    }
}

impl LedgerEntry {
    /// Exec order test on keys, deciding `entry_key_lt(self@, other@)`.
    pub fn key_before(&self, other: &LedgerEntry) -> (r: bool)
        ensures
            r == entry_key_lt(self@, other@),
    {
        if self.path.lex_before(&other.path) {
            true
        } else if self.path.same_as(&other.path) {
            self.producer < other.producer
        } else {
            false
        }
    }

    /// Exec key equality, deciding `entry_key_eq(self@, other@)`.
    pub fn key_same(&self, other: &LedgerEntry) -> (r: bool)
        ensures
            r == entry_key_eq(self@, other@),
    {
        self.path.same_as(&other.path) && self.producer == other.producer
    }
}

/// The producer ledger: for every (path, producer) pair the full replacement
/// set of annotations last reported, strictly sorted by key.  This is the
/// sole source of truth the projection is derived from.
#[derive(Debug)]
pub struct Ledger {
    entries: Vec<LedgerEntry>,
}

impl View for Ledger {
    type V = Seq<LedgerEntryV>;

    closed spec fn view(&self) -> Seq<LedgerEntryV> {
        self.entries@.map_values(|e: LedgerEntry| e@)
    }
}

impl Ledger {
    pub open spec fn wf(&self) -> bool {
        ledger_sorted(self@)
    }

    pub fn new() -> (l: Ledger)
        ensures
            l@ == Seq::<LedgerEntryV>::empty(),
            l.wf(),
    {
        let l = Ledger { entries: Vec::new() };
        proof {
            assert(l@ =~= Seq::<LedgerEntryV>::empty());
        }
        l
    }

    /// How many entries the ledger holds.
    pub fn len(&self) -> (n: usize)
        ensures
            n == self@.len(),
    {
        self.entries.len()
    }

    /// The entry at a position, in key order.
    pub fn entry_at(&self, i: usize) -> (e: &LedgerEntry)
        requires
            i < self@.len(),
        ensures
            e@ == self@[i as int],
    {
        &self.entries[i]
    }

    /// Stores `e`, replacing any entry with the same key.
    pub fn put(&mut self, e: LedgerEntry)
        requires
            old(self).wf(),
        ensures
            final(self)@ == ledger_put(old(self)@, e@),
            final(self).wf(),
    {
        let ghost s = self@;
        let ghost ev = e@;
        let mut i: usize = 0;
        while i < self.entries.len() && self.entries[i].key_before(&e)
            invariant
                i <= self.entries.len(),
                forall|j: int| 0 <= j < i ==> entry_key_lt(#[trigger] s[j], ev),
                self@ == s,
                e@ == ev,
            decreases self.entries.len() - i,
        {
            i = i + 1;
        }
        proof {
            lemma_ledger_put_split(s, ev, i as int);
            lemma_ledger_put_sorted(s, ev);
        }
        if i < self.entries.len() && self.entries[i].key_same(&e) {
            self.entries.remove(i);
            self.entries.insert(i, e);
            proof {
                assert(self@ =~= s.take(i as int) + seq![ev] + s.skip(i as int + 1));
            }
        } else {
            self.entries.insert(i, e);
            proof {
                assert(self@ =~= s.take(i as int) + seq![ev] + s.skip(i as int));
            }
        }
    }

    /// Deletes the entry for (path, producer), if any.
    pub fn drop_entry(&mut self, path: &PathKey, producer: u64)
        requires
            old(self).wf(),
        ensures
            final(self)@ == ledger_drop(old(self)@, path@, producer),
            final(self).wf(),
    {
        let ghost s = self@;
        let mut i: usize = 0;
        while i < self.entries.len() && !(self.entries[i].path.same_as(path)
            && self.entries[i].producer == producer)
            invariant
                i <= self.entries.len(),
                forall|j: int| 0 <= j < i ==> !(#[trigger] s[j].path == path@ && s[j].producer
                    == producer),
                self@ == s,
            decreases self.entries.len() - i,
        {
            i = i + 1;
        }
        proof {
            lemma_ledger_drop_split(s, path@, producer, i as int);
            lemma_ledger_drop_sorted(s, path@, producer);
        }
        if i < self.entries.len() {
            self.entries.remove(i);
            proof {
                assert(self@ =~= s.take(i as int) + s.skip(i as int + 1));
            }
        }
    }
}

} // verus!
