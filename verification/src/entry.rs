use vstd::prelude::*;

verus! {

/// Whether the last `c` bytes of `a` and `b` agree; equivalently, whether
/// the two byte strings share a common suffix of length `c`.
pub open spec fn spec_common_suffix(a: Seq<u8>, b: Seq<u8>, c: int) -> bool {
    &&& 0 <= c <= a.len()
    &&& c <= b.len()
    &&& forall|j: int|
        a.len() - c <= j < a.len() ==> #[trigger] a[j] == b[j - a.len() + b.len()]
}

/// A byte string carrying a build-time id, used transiently while the TAIL
/// is assembled. Indexing runs from the tail end, so "prefix" order on an
/// entry is suffix order on its bytes.
#[derive(Clone, Debug)]
pub struct Entry {
    bytes_: Vec<u8>,
    id_: u32,
}

impl View for Entry {
    type V = Seq<u8>;

    closed spec fn view(&self) -> Seq<u8> {
        self.bytes_@
    }
}

impl Entry {
    pub closed spec fn spec_id(self) -> u32 {
        self.id_
    }

    pub fn new(bytes: Vec<u8>) -> (r: Entry)
        ensures
            r@ == bytes@,
            r.spec_id() == 0,
    {
        Entry { bytes_: bytes, id_: 0 }
    }

    pub fn len(&self) -> (r: usize)
        ensures
            r == self@.len(),
    {
        self.bytes_.len()
    }

    pub fn is_empty(&self) -> (r: bool)
        ensures
            r == (self@.len() == 0),
    {
        self.bytes_.len() == 0
    }

    /// The `i`-th byte counted from the tail end.
    pub fn at(&self, i: usize) -> (r: u8)
        requires
            i < self@.len(),
        ensures
            r == self@[self@.len() - 1 - i],
    {
        self.bytes_[self.bytes_.len() - i - 1]
    }

    pub fn get_bytes(&self) -> (r: &Vec<u8>)
        ensures
            r@ == self@,
    {
        &self.bytes_
    }

    pub fn set_id(&mut self, id: u32)
        ensures
            final(self)@ == old(self)@,
            final(self).spec_id() == id,
    {
        self.id_ = id;
    }

    pub fn get_id(&self) -> (r: u32)
        ensures
            r == self.spec_id(),
    {
        self.id_
    }

    /// The length of the longest common suffix of the two byte strings
    /// (the longest common prefix in tail-end indexing).
    pub fn common_count(&self, other: &Entry) -> (r: usize)
        ensures
            spec_common_suffix(self@, other@, r as int),
            r < self@.len() && r < other@.len() ==> self@[self@.len() - 1 - r] != other@[other@.len()
                - 1 - r],
            r == self@.len() || r == other@.len() || self@[self@.len() - 1 - r] != other@[other@.len()
                - 1 - r],
    {
        let n = if self.bytes_.len() < other.bytes_.len() {
            self.bytes_.len()
        } else {
            other.bytes_.len()
        };
        let mut c: usize = 0;
        while c < n
            invariant
                n <= self@.len(),
                n <= other@.len(),
                c <= n,
                spec_common_suffix(self@, other@, c as int),
            decreases n - c,
        {
            if self.at(c) != other.at(c) {
                return c;
            }
            proof {
                assert forall|j: int|
                    self@.len() - (c + 1) <= j < self@.len() implies #[trigger] self@[j]
                    == other@[j - self@.len() + other@.len()] by {
                    if j == self@.len() - 1 - c {
                        assert(self@[j] == other@[other@.len() - 1 - c]);
                    }
                }
            }
            c = c + 1;
        }
        c
    }
}

/// Suffix-lexicographic order on byte strings: the order of the reversed
/// strings, read by comparing the last bytes first. A proper suffix sorts
/// before its extensions.
pub open spec fn spec_rev_lex_less(a: Seq<u8>, b: Seq<u8>) -> bool
    decreases a.len(),
{
    if b.len() == 0 {
        false
    } else if a.len() == 0 {
        true
    } else if a.last() != b.last() {
        a.last() < b.last()
    } else {
        spec_rev_lex_less(a.drop_last(), b.drop_last())
    }
}

/// After peeling a common suffix of length `c` that ends at a mismatch or
/// at the end of one string, the order is decided at position `c` from the
/// tail.
proof fn lemma_rev_lex_peel(a: Seq<u8>, b: Seq<u8>, c: int)
    requires
        spec_common_suffix(a, b, c),
        c == a.len() || c == b.len() || a[a.len() - 1 - c] != b[b.len() - 1 - c],
    ensures
        spec_rev_lex_less(a, b) == (if c == a.len() {
            c < b.len()
        } else if c == b.len() {
            false
        } else {
            a[a.len() - 1 - c] < b[b.len() - 1 - c]
        }),
    decreases c,
{
    if c == 0 {
    } else {
        assert(a[a.len() - 1] == b[b.len() - 1]);
        let a2 = a.drop_last();
        let b2 = b.drop_last();
        assert(spec_common_suffix(a2, b2, c - 1)) by {
            assert forall|j: int|
                a2.len() - (c - 1) <= j < a2.len() implies #[trigger] a2[j] == b2[j - a2.len()
                + b2.len()] by {
                assert(a[j] == b[j - a.len() + b.len()]);
            }
        }
        if c - 1 < a2.len() && c - 1 < b2.len() {
            assert(a2[a2.len() - 1 - (c - 1)] == a[a.len() - 1 - c]);
            assert(b2[b2.len() - 1 - (c - 1)] == b[b.len() - 1 - c]);
        }
        lemma_rev_lex_peel(a2, b2, c - 1);
    }
}

/// Compares two entries in suffix-lexicographic order. Returns true when
/// `a` sorts strictly before `b`.
pub fn rev_lex_less(a: &Entry, b: &Entry) -> (r: bool)
    ensures
        r == spec_rev_lex_less(a@, b@),
{
    let c = a.common_count(b);
    proof {
        lemma_rev_lex_peel(a@, b@, c as int);
    }
    if c == a.len() {
        c != b.len()
    } else if c == b.len() {
        false
    } else {
        a.at(c) < b.at(c)
    }
}

} // verus!
