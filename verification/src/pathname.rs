use vstd::prelude::*;

verus! {

/// The name of a document, held as the bytes of its path.
///
/// The engine never interprets a path; it only compares paths for equality
/// and keeps them in lexicographic byte order so that the projection lists
/// files deterministically.
#[derive(Debug)]
pub struct PathKey {
    bytes: Vec<u8>,
}

impl View for PathKey {
    type V = Seq<u8>;

    closed spec fn view(&self) -> Seq<u8> {
        self.bytes@
    }
}

/// Strict lexicographic order on byte strings: a proper prefix comes first,
/// otherwise the first differing byte decides.
pub open spec fn bytes_lt(a: Seq<u8>, b: Seq<u8>) -> bool
    decreases a.len(),
{
    if b.len() == 0 {
        false
    } else if a.len() == 0 {
        true
    } else if a[0] != b[0] {
        a[0] < b[0]
    } else {
        bytes_lt(a.drop_first(), b.drop_first())
    }
}

/// Lexicographic order is irreflexive and asymmetric: two byte strings are
/// never each less than the other, and none is less than itself.
pub proof fn lemma_bytes_lt_asymmetric(a: Seq<u8>, b: Seq<u8>)
    ensures
        !(bytes_lt(a, b) && bytes_lt(b, a)),
        !bytes_lt(a, a),
    decreases a.len(),
{
    if a.len() > 0 && b.len() > 0 && a[0] == b[0] {
        lemma_bytes_lt_asymmetric(a.drop_first(), b.drop_first());
    }
    if a.len() > 0 {
        lemma_bytes_lt_asymmetric(a.drop_first(), a.drop_first());
    }
}

/// Lexicographic order is total: two byte strings are equal or one is less.
pub proof fn lemma_bytes_lt_total(a: Seq<u8>, b: Seq<u8>)
    ensures
        bytes_lt(a, b) || bytes_lt(b, a) || a == b,
    decreases a.len(),
{
    if a.len() > 0 && b.len() > 0 && a[0] == b[0] {
        lemma_bytes_lt_total(a.drop_first(), b.drop_first());
        if a.drop_first() == b.drop_first() {
            assert forall|i: int| 0 <= i < a.len() implies a[i] == b[i] by {
                if i > 0 {
                    assert(a[i] == a.drop_first()[i - 1]);
                    assert(b[i] == b.drop_first()[i - 1]);
                }
            }
            assert(a =~= b);
        }
    }
}

/// Lexicographic order is transitive.
pub proof fn lemma_bytes_lt_transitive(a: Seq<u8>, b: Seq<u8>, c: Seq<u8>)
    requires
        bytes_lt(a, b),
        bytes_lt(b, c),
    ensures
        bytes_lt(a, c),
    decreases a.len(),
{
    if a.len() > 0 && b.len() > 0 && c.len() > 0 {
        if a[0] == b[0] && b[0] == c[0] {
            lemma_bytes_lt_transitive(a.drop_first(), b.drop_first(), c.drop_first());
        }
    }
}

impl PathKey {
    pub fn new(bytes: Vec<u8>) -> (p: PathKey)
        ensures
            p@ == bytes@,
    {
        PathKey { bytes }
    }

    /// A fresh key with the same bytes.
    pub fn duplicate(&self) -> (p: PathKey)
        ensures
            p@ == self@,
    {
        let mut out: Vec<u8> = Vec::new();
        let mut i: usize = 0;
        while i < self.bytes.len()
            invariant
                i <= self.bytes.len(),
                out@ == self.bytes@.take(i as int),
            decreases self.bytes.len() - i,
        {
            out.push(self.bytes[i]);
            i = i + 1;
            proof {
                assert(out@ =~= self.bytes@.take(i as int));
            }
        }
        proof {
            assert(out@ =~= self.bytes@);
        }
        PathKey { bytes: out }
    }

    /// Decides whether two paths name the same document.
    pub fn same_as(&self, other: &PathKey) -> (r: bool)
        ensures
            r == (self@ == other@),
    {
        if self.bytes.len() != other.bytes.len() {
            proof {
                assert(self@ != other@);
            }
            return false;
        }
        let mut i: usize = 0;
        while i < self.bytes.len()
            invariant
                i <= self.bytes.len(),
                self.bytes.len() == other.bytes.len(),
                forall|j: int| 0 <= j < i ==> self.bytes@[j] == other.bytes@[j],
            decreases self.bytes.len() - i,
        {
            if self.bytes[i] != other.bytes[i] {
                proof {
                    assert(self@ != other@);
                }
                return false;
            }
            i = i + 1;
        }
        proof {
            assert(self@ =~= other@);
        }
        true
    }

    /// Decides `bytes_lt(self@, other@)`.
    pub fn lex_before(&self, other: &PathKey) -> (r: bool)
        ensures
            r == bytes_lt(self@, other@),
    {
        let mut i: usize = 0;
        proof {
            assert(self.bytes@.skip(0) =~= self.bytes@);
            assert(other.bytes@.skip(0) =~= other.bytes@);
        }
        loop
            invariant
                i <= self.bytes.len(),
                i <= other.bytes.len(),
                bytes_lt(self@, other@) == bytes_lt(
                    self.bytes@.skip(i as int),
                    other.bytes@.skip(i as int),
                ),
            decreases self.bytes.len() - i,
        {
            if i >= other.bytes.len() {
                return false;
            }
            if i >= self.bytes.len() {
                return true;
            }
            let x = self.bytes[i];
            let y = other.bytes[i];
            if x != y {
                return x < y;
            }
            proof {
                assert(self.bytes@.skip(i as int).drop_first() =~= self.bytes@.skip(i + 1));
                assert(other.bytes@.skip(i as int).drop_first() =~= other.bytes@.skip(i + 1));
            }
            i = i + 1;
        }
    }
}

} // verus!
