use crate::bit_vec::BitVec;
use crate::config::TailMode;
use crate::error::Error;
use crate::entry::{rev_lex_less, spec_common_suffix, Entry};
use vstd::prelude::*;
use vstd::seq_lib::*;
use vstd::set_lib::*;

verus! {

/// The bytes read from `buf` starting at `o` up to, and not including, the
/// first zero byte.
pub open spec fn spec_text_restore(buf: Seq<u8>, o: int) -> Seq<u8>
    decreases buf.len() - o,
{
    if o < 0 || o >= buf.len() {
        Seq::empty()
    } else if buf[o] == 0 {
        Seq::empty()
    } else {
        seq![buf[o]] + spec_text_restore(buf, o + 1)
    }
}

/// The bytes read from `buf` starting at `o` through the first position
/// whose end flag is set, inclusive.
pub open spec fn spec_bin_restore(buf: Seq<u8>, ends: Seq<bool>, o: int) -> Seq<u8>
    decreases buf.len() - o,
{
    if o < 0 || o >= buf.len() || o >= ends.len() {
        Seq::empty()
    } else if ends[o] {
        seq![buf[o]]
    } else {
        seq![buf[o]] + spec_bin_restore(buf, ends, o + 1)
    }
}

/// A byte string sits in a text-mode buffer at `off`: reading from `off`
/// up to the zero terminator yields exactly that string, and the
/// terminator lies inside the buffer.
pub open spec fn text_placed(buf: Seq<u8>, off: int, s: Seq<u8>) -> bool {
    &&& 0 <= off
    &&& off + s.len() < buf.len()
    &&& spec_text_restore(buf, off) == s
}

/// A byte string sits in a binary-mode buffer at `off`: reading from
/// `off` through the set end flag yields exactly that string.
pub open spec fn bin_placed(buf: Seq<u8>, ends: Seq<bool>, off: int, s: Seq<u8>) -> bool {
    &&& 0 <= off
    &&& s.len() >= 1
    &&& off + s.len() <= buf.len()
    &&& off + s.len() <= ends.len()
    &&& ends[off + s.len() - 1]
    &&& spec_bin_restore(buf, ends, off) == s
}

/// The query continues at position `p` with exactly the byte string `s`.
pub open spec fn spec_consumes(q: Seq<u8>, p: int, s: Seq<u8>) -> bool {
    &&& 0 <= p
    &&& p + s.len() <= q.len()
    &&& q.subrange(p, p + s.len()) == s
}

/// The query ends inside `s`: its whole remainder from `p` is a prefix
/// of `s`.
pub open spec fn spec_consumes_to_end(q: Seq<u8>, p: int, s: Seq<u8>) -> bool {
    &&& 0 <= p <= q.len()
    &&& q.len() - p <= s.len()
    &&& q.subrange(p, q.len() as int) == s.subrange(0, q.len() - p)
}

/// Whether the byte string contains a zero byte.
pub open spec fn has_zero_byte(s: Seq<u8>) -> bool {
    exists|j: int| 0 <= j < s.len() && s[j] == 0
}

/// Whether any of the entries contains a zero byte.
pub open spec fn entries_have_zero(es: Seq<Entry>) -> bool {
    exists|i: int| 0 <= i < es.len() && has_zero_byte(#[trigger] es[i]@)
}

/// The serialized size of the entries: each byte plus one terminator or
/// flag per entry.
pub open spec fn spec_size_sum(es: Seq<Entry>) -> int
    decreases es.len(),
{
    if es.len() == 0 {
        0
    } else {
        es[0]@.len() + 1 + spec_size_sum(es.drop_first())
    }
}

/// The serialized size of the entries selected by an index list.
pub open spec fn spec_sum_idx(es: Seq<Entry>, idx: Seq<usize>) -> int
    decreases idx.len(),
{
    if idx.len() == 0 {
        0
    } else if 0 <= idx[0] < es.len() {
        es[idx[0] as int]@.len() + 1 + spec_sum_idx(es, idx.drop_first())
    } else {
        spec_sum_idx(es, idx.drop_first())
    }
}

proof fn lemma_size_sum_nonneg(es: Seq<Entry>)
    ensures
        spec_size_sum(es) >= 0,
    decreases es.len(),
{
    if es.len() > 0 {
        lemma_size_sum_nonneg(es.drop_first());
    }
}

proof fn lemma_sum_idx_nonneg(es: Seq<Entry>, idx: Seq<usize>)
    ensures
        spec_sum_idx(es, idx) >= 0,
    decreases idx.len(),
{
    if idx.len() > 0 {
        lemma_sum_idx_nonneg(es, idx.drop_first());
    }
}

/// Selecting by indices that only reference the first part of the entry
/// list gives the same sum over the shortened list.
proof fn lemma_sum_idx_congruent(es: Seq<Entry>, es2: Seq<Entry>, idx: Seq<usize>)
    requires
        es2.len() <= es.len(),
        forall|t: int| 0 <= t < idx.len() ==> 0 <= #[trigger] idx[t] < es2.len(),
        forall|i: int| 0 <= i < es2.len() ==> es2[i] == es[i],
    ensures
        spec_sum_idx(es, idx) == spec_sum_idx(es2, idx),
    decreases idx.len(),
{
    if idx.len() > 0 {
        lemma_sum_idx_congruent(es, es2, idx.drop_first());
    }
}

/// Removing one position from the index list removes its term.
proof fn lemma_sum_idx_remove(es: Seq<Entry>, idx: Seq<usize>, p: int)
    requires
        0 <= p < idx.len(),
        forall|t: int| 0 <= t < idx.len() ==> 0 <= #[trigger] idx[t] < es.len(),
    ensures
        spec_sum_idx(es, idx.remove(p)) == spec_sum_idx(es, idx) - (es[idx[p] as int]@.len() + 1),
    decreases idx.len(),
{
    if p == 0 {
        assert(idx.remove(0) =~= idx.drop_first());
    } else {
        assert(idx.remove(p).drop_first() =~= idx.drop_first().remove(p - 1));
        assert(idx.remove(p)[0] == idx[0]);
        lemma_sum_idx_remove(es, idx.drop_first(), p - 1);
    }
}

/// Dropping the last index drops its term.
proof fn lemma_sum_idx_drop_last(es: Seq<Entry>, idx: Seq<usize>)
    requires
        idx.len() >= 1,
        forall|t: int| 0 <= t < idx.len() ==> 0 <= #[trigger] idx[t] < es.len(),
    ensures
        spec_sum_idx(es, idx.drop_last()) == spec_sum_idx(es, idx) - (es[idx.last() as int]@.len()
            + 1),
{
    assert(idx.drop_last() =~= idx.remove(idx.len() - 1));
    lemma_sum_idx_remove(es, idx, idx.len() - 1);
}

/// A sum over distinct indices is bounded by the sum over all entries.
proof fn lemma_sum_idx_subset(es: Seq<Entry>, idx: Seq<usize>)
    requires
        idx.no_duplicates(),
        forall|t: int| 0 <= t < idx.len() ==> 0 <= #[trigger] idx[t] < es.len(),
    ensures
        spec_sum_idx(es, idx) <= spec_size_sum(es),
    decreases es.len(),
{
    if es.len() == 0 {
        if idx.len() > 0 {
            assert(0 <= idx[0] < es.len());
        }
        lemma_size_sum_nonneg(es);
    } else {
        let m = es.len() - 1;
        if exists|p: int| 0 <= p < idx.len() && idx[p] as int == m {
            let p = choose|p: int| 0 <= p < idx.len() && idx[p] as int == m;
            let idx2 = idx.remove(p);
            lemma_sum_idx_remove(es, idx, p);
            assert(idx2.no_duplicates());
            assert forall|t: int| 0 <= t < idx2.len() implies 0 <= #[trigger] idx2[t] < es.len()
                - 1 by {
                if t < p {
                    assert(idx2[t] == idx[t]);
                    assert(idx[t] != idx[p]);
                } else {
                    assert(idx2[t] == idx[t + 1]);
                    assert(idx[t + 1] != idx[p]);
                }
            }
            let es2 = es.drop_last();
            lemma_sum_idx_congruent(es, es2, idx2);
            lemma_sum_idx_subset(es2, idx2);
            assert(spec_size_sum(es) == spec_size_sum(es2) + (es[m]@.len() + 1)) by {
                lemma_size_sum_drop_last(es);
                assert(es.last() == es[m]);
            }
        } else {
            assert forall|t: int| 0 <= t < idx.len() implies 0 <= #[trigger] idx[t] < es.len()
                - 1 by {
                assert(idx[t] as int != m);
            }
            let es2 = es.drop_last();
            lemma_sum_idx_congruent(es, es2, idx);
            lemma_sum_idx_subset(es2, idx);
            lemma_size_sum_drop_last(es);
        }
    }
}

/// The total size grows by the appended entry's size.
pub proof fn lemma_size_sum_snoc(es: Seq<Entry>, e: Entry)
    ensures
        spec_size_sum(es.push(e)) == spec_size_sum(es) + e@.len() + 1,
{
    lemma_size_sum_drop_last(es.push(e));
    assert(es.push(e).drop_last() =~= es);
    assert(es.push(e).last() == e);
}

/// The total size splits off the last entry.
proof fn lemma_size_sum_drop_last(es: Seq<Entry>)
    requires
        es.len() >= 1,
    ensures
        spec_size_sum(es) == spec_size_sum(es.drop_last()) + es.last()@.len() + 1,
    decreases es.len(),
{
    if es.len() == 1 {
        assert(es.drop_last() =~= Seq::empty());
        assert(es.drop_first() =~= Seq::empty());
    } else {
        lemma_size_sum_drop_last(es.drop_first());
        assert(es.drop_first().drop_last() =~= es.drop_last().drop_first());
        assert(es.drop_last()[0] == es[0]);
    }
}

/// Whether some position of the index list holds the value.
pub open spec fn covered(idx: Seq<usize>, v: int) -> bool {
    exists|t: int| 0 <= t < idx.len() && idx[t] == v
}

/// Distinct values, each below `n`, in a list of length `n`, cover every
/// value below `n`.
proof fn lemma_distinct_covers(idx: Seq<usize>, n: int)
    requires
        idx.len() == n,
        idx.no_duplicates(),
        forall|t: int| 0 <= t < n ==> #[trigger] idx[t] < n,
    ensures
        forall|v: int| 0 <= v < n ==> #[trigger] covered(idx, v),
{
    let ints = idx.map_values(|u: usize| u as int);
    assert(ints.no_duplicates()) by {
        assert(forall|t: int| 0 <= t < n ==> ints[t] == #[trigger] idx[t] as int);
    }
    ints.unique_seq_to_set();
    let s = ints.to_set();
    let r = set_int_range(0, n);
    lemma_int_range(0, n);
    assert(s.subset_of(r)) by {
        assert forall|v: int| s.contains(v) implies r.contains(v) by {
            let t = choose|t: int| 0 <= t < ints.len() && ints[t] == v;
            assert(idx[t] < n);
        }
    }
    lemma_subset_same_len(s, r);
    assert forall|v: int| 0 <= v < n implies #[trigger] covered(idx, v) by {
        assert(r.contains(v));
        assert(s.contains(v));
        assert(ints.contains(v));
        let t = choose|t: int| 0 <= t < ints.len() && ints[t] == v;
        assert(idx[t] == v);
    }
}

/// A subset of a finite set with the same cardinality is the whole set.
proof fn lemma_subset_same_len<A>(s1: Set<A>, s2: Set<A>)
    requires
        s2.finite(),
        s1.subset_of(s2),
        s1.len() == s2.len(),
    ensures
        s1 =~= s2,
    decreases s2.len(),
{
    lemma_len_subset(s1, s2);
    if s2.len() == 0 {
        assert(s1.len() == 0);
        if exists|a: A| s1.contains(a) {
            let a = choose|a: A| s1.contains(a);
            assert(s1.remove(a).len() == s1.len() - 1);
            assert(false);
        }
        assert(s1 =~= Set::empty());
        if exists|a: A| s2.contains(a) {
            let a = choose|a: A| s2.contains(a);
            assert(s2.remove(a).len() == s2.len() - 1);
            assert(false);
        }
        assert(s2 =~= Set::empty());
    } else {
        let a = s2.choose();
        assert(s2.contains(a));
        if s1.contains(a) {
            lemma_subset_same_len(s1.remove(a), s2.remove(a));
            assert(s1 =~= s1.remove(a).insert(a));
            assert(s2 =~= s2.remove(a).insert(a));
        } else {
            assert(s1.subset_of(s2.remove(a)));
            lemma_len_subset(s1, s2.remove(a));
            assert(false);
        }
    }
}

/// Reading from `off` yields the result character by character: every
/// returned byte is nonzero and comes from the buffer, and reading stops
/// at a zero byte if it stops inside the buffer.
proof fn lemma_text_props(buf: Seq<u8>, o: int)
    requires
        0 <= o <= buf.len(),
    ensures
        o + spec_text_restore(buf, o).len() <= buf.len(),
        o + spec_text_restore(buf, o).len() < buf.len() ==> buf[o + spec_text_restore(
            buf,
            o,
        ).len()] == 0,
    decreases buf.len() - o,
{
    if o < buf.len() && buf[o] != 0 {
        lemma_text_props(buf, o + 1);
    }
}

/// Appending bytes to a text buffer does not disturb a string whose
/// terminator lies inside the old buffer.
proof fn lemma_text_extend(buf: Seq<u8>, buf2: Seq<u8>, o: int)
    requires
        0 <= o <= buf.len(),
        buf.len() <= buf2.len(),
        forall|i: int| 0 <= i < buf.len() ==> buf2[i] == buf[i],
        o + spec_text_restore(buf, o).len() < buf.len(),
    ensures
        spec_text_restore(buf2, o) == spec_text_restore(buf, o),
    decreases buf.len() - o,
{
    if o < buf.len() {
        if buf[o] == 0 {
        } else {
            lemma_text_props(buf, o + 1);
            lemma_text_extend(buf, buf2, o + 1);
        }
    }
}

/// A string written at the end of a text buffer, followed by its zero
/// terminator, reads back exactly.
proof fn lemma_text_append(buf: Seq<u8>, s: Seq<u8>)
    requires
        forall|k: int| 0 <= k < s.len() ==> s[k] != 0,
    ensures
        spec_text_restore(buf + s + seq![0u8], buf.len() as int) == s,
    decreases s.len(),
{
    let whole = buf + s + seq![0u8];
    if s.len() == 0 {
        assert(whole[buf.len() as int] == 0);
    } else {
        let buf2 = buf + seq![s[0]];
        let s2 = s.drop_first();
        assert(whole =~= buf2 + s2 + seq![0u8]);
        assert(forall|k: int| 0 <= k < s2.len() ==> s2[k] != 0);
        lemma_text_append(buf2, s2);
        assert(whole[buf.len() as int] == s[0]);
        assert(s[0] != 0);
        assert(spec_text_restore(whole, buf.len() as int) == seq![s[0]] + spec_text_restore(
            whole,
            buf.len() as int + 1,
        ));
        assert(seq![s[0]] + s2 =~= s);
    }
}

/// Reading a shared suffix: moving the start forward by `d` drops the
/// first `d` bytes of the result.
proof fn lemma_text_offset(buf: Seq<u8>, o: int, d: int)
    requires
        0 <= o <= buf.len(),
        0 <= d <= spec_text_restore(buf, o).len(),
    ensures
        spec_text_restore(buf, o + d) == spec_text_restore(buf, o).subrange(
            d,
            spec_text_restore(buf, o).len() as int,
        ),
    decreases d,
{
    let r = spec_text_restore(buf, o);
    if d == 0 {
        assert(r.subrange(0, r.len() as int) =~= r);
    } else {
        assert(o < buf.len() && buf[o] != 0);
        lemma_text_props(buf, o + 1);
        lemma_text_offset(buf, o + 1, d - 1);
        let r2 = spec_text_restore(buf, o + 1);
        assert(r =~= seq![buf[o]] + r2);
        assert(r2.subrange(d - 1, r2.len() as int) =~= r.subrange(d, r.len() as int));
    }
}

/// Every returned byte of a binary read comes from the buffer; the read
/// stops exactly at the first set end flag.
proof fn lemma_bin_props(buf: Seq<u8>, ends: Seq<bool>, o: int)
    requires
        0 <= o <= buf.len(),
        ends.len() == buf.len(),
    ensures
        o + spec_bin_restore(buf, ends, o).len() <= buf.len(),
        spec_bin_restore(buf, ends, o).len() >= 1 ==> (ends[o + spec_bin_restore(buf, ends, o).len()
            - 1] || o + spec_bin_restore(buf, ends, o).len() == buf.len()),
        o < buf.len() ==> spec_bin_restore(buf, ends, o).len() >= 1,
    decreases buf.len() - o,
{
    if o < buf.len() && !ends[o] {
        lemma_bin_props(buf, ends, o + 1);
    }
}

/// Appending to a binary buffer does not disturb a string that ends at a
/// set flag inside the old buffer.
proof fn lemma_bin_extend(buf: Seq<u8>, ends: Seq<bool>, buf2: Seq<u8>, ends2: Seq<bool>, o: int)
    requires
        0 <= o < buf.len(),
        ends.len() == buf.len(),
        ends2.len() == buf2.len(),
        buf.len() <= buf2.len(),
        forall|i: int| 0 <= i < buf.len() ==> buf2[i] == buf[i],
        forall|i: int| 0 <= i < ends.len() ==> ends2[i] == ends[i],
        ends[o + spec_bin_restore(buf, ends, o).len() - 1],
    ensures
        spec_bin_restore(buf2, ends2, o) == spec_bin_restore(buf, ends, o),
    decreases buf.len() - o,
{
    lemma_bin_props(buf, ends, o);
    let r = spec_bin_restore(buf, ends, o);
    if ends[o] {
    } else {
        let r2 = spec_bin_restore(buf, ends, o + 1);
        assert(r == seq![buf[o]] + r2);
        assert(r.len() == 1 + r2.len());
        // the read cannot have stopped by falling off the buffer: the
        // terminating flag excludes that
        if o + 1 >= buf.len() {
            assert(r2 =~= Seq::<u8>::empty());
            assert(ends[o]);
            assert(false);
        }
        lemma_bin_props(buf, ends, o + 1);
        assert(ends[o + 1 + r2.len() - 1] || o + 1 + r2.len() == buf.len());
        if !ends[o + 1 + r2.len() - 1] {
            // ran to the end of the buffer without a flag, contradicting
            // the terminating flag of the whole read
            assert(o + r.len() - 1 == o + r2.len());
            assert(ends[o + r2.len()]);
            assert(o + 1 + r2.len() == buf.len());
            assert(false);
        }
        lemma_bin_extend(buf, ends, buf2, ends2, o + 1);
    }
}

/// A string written at the end of a binary buffer, with clear flags under
/// all but its last byte and a set flag under the last, reads back
/// exactly.
proof fn lemma_bin_append(buf: Seq<u8>, ends: Seq<bool>, s: Seq<u8>, ends2: Seq<bool>)
    requires
        ends.len() == buf.len(),
        s.len() >= 1,
        ends2.len() == ends.len() + s.len(),
        forall|i: int| 0 <= i < ends.len() ==> ends2[i] == ends[i],
        forall|i: int| ends.len() <= i < ends2.len() - 1 ==> !ends2[i],
        ends2[ends2.len() - 1],
    ensures
        spec_bin_restore(buf + s, ends2, buf.len() as int) == s,
    decreases s.len(),
{
    let whole = buf + s;
    if s.len() == 1 {
        assert(whole[buf.len() as int] == s[0]);
        assert(ends2[buf.len() as int]);
        assert(seq![s[0]] =~= s);
    } else {
        let buf2 = buf + seq![s[0]];
        let s2 = s.drop_first();
        assert(whole =~= buf2 + s2);
        assert(!ends2[buf.len() as int]);
        lemma_bin_append(buf2, ends2.subrange(0, buf2.len() as int), s2, ends2);
        assert(spec_bin_restore(whole, ends2, buf.len() as int) == seq![s[0]] + spec_bin_restore(
            whole,
            ends2,
            buf.len() as int + 1,
        ));
        assert(seq![s[0]] + s2 =~= s);
    }
}

/// Moving the start of a binary read forward by `d` drops the first `d`
/// bytes of the result.
proof fn lemma_bin_offset(buf: Seq<u8>, ends: Seq<bool>, o: int, d: int)
    requires
        0 <= o <= buf.len(),
        ends.len() == buf.len(),
        0 <= d < spec_bin_restore(buf, ends, o).len(),
    ensures
        spec_bin_restore(buf, ends, o + d) == spec_bin_restore(buf, ends, o).subrange(
            d,
            spec_bin_restore(buf, ends, o).len() as int,
        ),
    decreases d,
{
    let r = spec_bin_restore(buf, ends, o);
    if d == 0 {
        assert(r.subrange(0, r.len() as int) =~= r);
    } else {
        assert(o < buf.len() && !ends[o]);
        lemma_bin_props(buf, ends, o + 1);
        lemma_bin_offset(buf, ends, o + 1, d - 1);
        let r2 = spec_bin_restore(buf, ends, o + 1);
        assert(r =~= seq![buf[o]] + r2);
        assert(r2.subrange(d - 1, r2.len() as int) =~= r.subrange(d, r.len() as int));
    }
}

/// The deduplicated suffix buffer at the deepest trie level. Text mode
/// stores zero-terminated strings; binary mode stores raw bytes and marks
/// ends in a bit vector. Strings that are suffixes of already-stored
/// strings share storage.
pub struct Tail {
    buf_: Vec<u8>,
    end_flags_: BitVec,
}

impl Tail {
    pub closed spec fn spec_buf(self) -> Seq<u8> {
        self.buf_@
    }

    pub closed spec fn spec_ends(self) -> Seq<bool> {
        self.end_flags_@
    }

    /// Text mode is recognizable by the absence of end flags.
    pub open spec fn spec_is_text(self) -> bool {
        self.spec_ends().len() == 0
    }

    /// In text mode the buffer ends with a terminator; in binary mode the
    /// flags line up with the buffer and the last flag is set.
    pub closed spec fn wf(self) -> bool {
        &&& self.buf_@.len() <= u32::MAX
        &&& self.end_flags_.wf()
        &&& if self.end_flags_@.len() == 0 {
            self.buf_@.len() > 0 ==> self.buf_@.last() == 0
        } else {
            &&& self.end_flags_@.len() == self.buf_@.len()
            &&& self.end_flags_@.last()
            &&& self.end_flags_.is_built()
        }
    }

    /// What a read from `o` returns, in the tail's own mode.
    pub open spec fn spec_restore(self, o: int) -> Seq<u8> {
        if self.spec_is_text() {
            spec_text_restore(self.spec_buf(), o)
        } else {
            spec_bin_restore(self.spec_buf(), self.spec_ends(), o)
        }
    }

    /// An offset is stored when reading it back yields its string whole,
    /// inside the buffer.
    pub open spec fn spec_placed(self, off: int, s: Seq<u8>) -> bool {
        if self.spec_is_text() {
            text_placed(self.spec_buf(), off, s)
        } else {
            bin_placed(self.spec_buf(), self.spec_ends(), off, s)
        }
    }

    /// Restore idempotence: reading back a stored offset yields the
    /// stored string, however often it is read.
    pub proof fn lemma_placed_restores(self, off: int, s: Seq<u8>)
        requires
            self.spec_placed(off, s),
        ensures
            self.spec_restore(off) == s,
            off < self.spec_buf().len(),
    {
    }

    pub fn new() -> (r: Tail)
        ensures
            r.wf(),
            r.spec_buf().len() == 0,
            r.spec_is_text(),
    {
        Tail { buf_: Vec::new(), end_flags_: BitVec::new() }
    }

    pub fn clear(&mut self)
        ensures
            final(self).wf(),
            final(self).spec_buf().len() == 0,
            final(self).spec_is_text(),
    {
        *self = Tail::new();
    }

    pub fn mode(&self) -> (r: TailMode)
        ensures
            r == (if self.spec_is_text() {
                TailMode::Text
            } else {
                TailMode::Binary
            }),
    {
        if self.end_flags_.is_empty() {
            TailMode::Text
        } else {
            TailMode::Binary
        }
    }

    pub fn is_empty(&self) -> (r: bool)
        ensures
            r == (self.spec_buf().len() == 0),
    {
        self.buf_.is_empty()
    }

    pub fn len(&self) -> (r: usize)
        ensures
            r == self.spec_buf().len(),
    {
        self.buf_.len()
    }

    /// The byte stored at `i`.
    pub fn byte_at(&self, i: usize) -> (r: u8)
        requires
            self.wf(),
            i < self.spec_buf().len(),
        ensures
            r == self.spec_buf()[i as int],
    {
        self.buf_[i]
    }

    /// The end flag under byte `i`; meaningful in binary mode only.
    pub fn end_at(&self, i: usize) -> (r: bool)
        requires
            self.wf(),
            !self.spec_is_text(),
            i < self.spec_buf().len(),
        ensures
            r == self.spec_ends()[i as int],
    {
        self.end_flags_.at(i)
    }

    /// Byte-wise match of the stored string at `offset` against the
    /// query, advancing the cursor over matched bytes. Without
    /// `prefix_ok` the outcome is exact: true precisely when the query
    /// continues at the cursor with the stored string whole, and then
    /// the cursor moves past it. With `prefix_ok`, a query that ends
    /// inside the stored string also counts as a match.
    pub fn match_at(&self, offset: u32, query: &Vec<u8>, pos: &mut usize, prefix_ok: bool) -> (r:
        Result<bool, Error>)
        requires
            self.wf(),
            *old(pos) <= query@.len(),
        ensures
            *old(pos) <= *final(pos) <= query@.len(),
            !prefix_ok ==> (r matches Ok(true) ==> {
                &&& spec_consumes(query@, *old(pos) as int, self.spec_restore(offset as int))
                &&& *final(pos) == *old(pos) + self.spec_restore(offset as int).len()
            }),
            !prefix_ok ==> (r matches Ok(false) ==> !spec_consumes(
                query@,
                *old(pos) as int,
                self.spec_restore(offset as int),
            )),
            prefix_ok ==> (r matches Ok(true) ==> ({
                ||| (spec_consumes(query@, *old(pos) as int, self.spec_restore(offset as int))
                    && *final(pos) == *old(pos) + self.spec_restore(offset as int).len())
                ||| (spec_consumes_to_end(query@, *old(pos) as int, self.spec_restore(
                    offset as int,
                )) && *final(pos) == query@.len())
            })),
            prefix_ok ==> (r matches Ok(false) ==> !spec_consumes(
                query@,
                *old(pos) as int,
                self.spec_restore(offset as int),
            ) && !spec_consumes_to_end(query@, *old(pos) as int, self.spec_restore(offset as int))),
    {
        let n = self.buf_.len();
        if n == 0 {
            return Err(Error::State);
        }
        if offset as usize >= n {
            return Err(Error::Code);
        }
        let text = self.end_flags_.is_empty();
        let qlen = query.len();
        let ghost s_off = self.spec_restore(offset as int);
        let mut i = offset as usize;
        while i < n
            invariant
                self.wf(),
                n == self.spec_buf().len(),
                text == self.spec_is_text(),
                qlen == query@.len(),
                offset as usize <= i <= n,
                *old(pos) <= *pos <= qlen,
                *pos - *old(pos) == i - offset as usize,
                s_off == self.spec_restore(offset as int),
                s_off == query@.subrange(*old(pos) as int, *pos as int) + self.spec_restore(
                    i as int,
                ),
            decreases n - i,
        {
            let c = self.buf_[i];
            if text && c == 0 {
                proof {
                    assert(self.spec_restore(i as int) =~= Seq::<u8>::empty());
                    assert(s_off =~= query@.subrange(*old(pos) as int, *pos as int));
                    assert(query@.subrange(
                        *old(pos) as int,
                        *old(pos) + s_off.len(),
                    ) == s_off);
                }
                return Ok(true);
            }
            proof {
                // the remaining stored string starts with this byte
                if text {
                    assert(self.spec_restore(i as int) == seq![c] + spec_text_restore(
                        self.spec_buf(),
                        i + 1,
                    ));
                } else {
                    if self.spec_ends()[i as int] {
                        assert(self.spec_restore(i as int) =~= seq![c]);
                    } else {
                        assert(self.spec_restore(i as int) == seq![c] + spec_bin_restore(
                            self.spec_buf(),
                            self.spec_ends(),
                            i + 1,
                        ));
                    }
                }
                assert(self.spec_restore(i as int).len() >= 1);
            }
            if *pos >= qlen {
                if prefix_ok {
                    proof {
                        // the whole query remainder was matched against a
                        // prefix of the stored string
                        assert(s_off.subrange(0, *pos - *old(pos)) =~= query@.subrange(
                            *old(pos) as int,
                            *pos as int,
                        ));
                    }
                    return Ok(true);
                }
                proof {
                    assert(*old(pos) + s_off.len() > qlen);
                }
                return Ok(false);
            }
            if c != query[*pos] {
                proof {
                    // a match would force this query byte to equal `c`
                    if spec_consumes(query@, *old(pos) as int, s_off) {
                        let d = *pos - *old(pos);
                        assert(s_off[d as int] == c);
                        assert(query@.subrange(
                            *old(pos) as int,
                            *old(pos) + s_off.len(),
                        )[d as int] == query@[*pos as int]);
                        assert(false);
                    }
                    if spec_consumes_to_end(query@, *old(pos) as int, s_off) {
                        let d = *pos - *old(pos);
                        assert(s_off.subrange(0, qlen - *old(pos))[d as int] == s_off[d as int]);
                        assert(s_off[d as int] == c);
                        assert(query@.subrange(*old(pos) as int, qlen as int)[d as int]
                            == query@[*pos as int]);
                        assert(false);
                    }
                }
                return Ok(false);
            }
            let flag = if text {
                false
            } else {
                self.end_flags_.at(i)
            };
            *pos = *pos + 1;
            if flag {
                proof {
                    assert(self.spec_restore(i as int) =~= seq![c]);
                    assert(s_off =~= query@.subrange(*old(pos) as int, *pos as int));
                    assert(query@.subrange(
                        *old(pos) as int,
                        *old(pos) + s_off.len(),
                    ) == s_off);
                }
                return Ok(true);
            }
            proof {
                assert(query@.subrange(*old(pos) as int, *pos as int) =~= query@.subrange(
                    *old(pos) as int,
                    *pos - 1,
                ) + seq![c]);
                assert(s_off =~= query@.subrange(*old(pos) as int, *pos as int)
                    + self.spec_restore(i + 1));
            }
            i = i + 1;
        }
        Err(Error::Code)
    }

    /// Serialized footprint in bytes: a header word, the buffer, and the
    /// end-flag bit vector.
    pub closed spec fn spec_io_size(self) -> int {
        8 + self.spec_buf().len() + self.end_flags_.spec_io_size()
    }

    /// The footprint, computed exactly and deterministically.
    pub fn io_size(&self) -> (r: u64)
        requires
            self.wf(),
        ensures
            r == self.spec_io_size(),
    {
        8 + self.buf_.len() as u64 + self.end_flags_.io_size()
    }

    /// Appends the string stored at `offset` to `key_out`: bytes up to the
    /// zero terminator in text mode, through the set end flag in binary
    /// mode.
    pub fn restore(&self, offset: usize, key_out: &mut Vec<u8>)
        requires
            self.wf(),
            self.spec_buf().len() > 0,
            offset < self.spec_buf().len(),
        ensures
            final(key_out)@ == old(key_out)@ + self.spec_restore(offset as int),
    {
        let n = self.buf_.len();
        let text = self.end_flags_.is_empty();
        let mut i = offset;
        while i < n
            invariant
                self.wf(),
                n == self.spec_buf().len(),
                text == self.spec_is_text(),
                offset <= i <= n,
                old(key_out)@ + self.spec_restore(offset as int) == key_out@ + self.spec_restore(i as int),
            decreases n - i,
        {
            let c = self.buf_[i];
            if text {
                if c == 0 {
                    proof {
                        assert(self.spec_restore(i as int) =~= Seq::<u8>::empty());
                        assert(key_out@ =~= old(key_out)@ + self.spec_restore(offset as int));
                    }
                    return ;
                }
                key_out.push(c);
                proof {
                    assert(self.spec_restore(i as int) == seq![c] + self.spec_restore(i + 1));
                    assert(key_out@ + self.spec_restore(i + 1) =~= old(key_out)@ + self.spec_restore(
                        offset as int,
                    ));
                }
            } else {
                key_out.push(c);
                if self.end_flags_.at(i) {
                    proof {
                        assert(self.spec_restore(i as int) =~= seq![c]);
                        assert(key_out@ =~= old(key_out)@ + self.spec_restore(offset as int));
                    }
                    return ;
                }
                proof {
                    assert(self.spec_restore(i as int) == seq![c] + self.spec_restore(i + 1));
                    assert(key_out@ + self.spec_restore(i + 1) =~= old(key_out)@ + self.spec_restore(
                        offset as int,
                    ));
                }
            }
            i = i + 1;
        }
        proof {
            assert(self.spec_restore(n as int) =~= Seq::<u8>::empty());
            assert(key_out@ =~= old(key_out)@ + self.spec_restore(offset as int));
        }
    }

    /// Builds the TAIL from the entries. Entries are processed in
    /// suffix-lexicographic order so that an entry that is a suffix of the
    /// previously stored one shares its storage. `offsets[i]` receives the
    /// offset of entry `i`, and reading that offset back yields entry `i`
    /// whole.
    ///
    /// Text mode requires zero-free entries; if a zero byte is present the
    /// mode silently switches to binary.
    pub fn build(entries: &Vec<Entry>, offsets: &mut Vec<u32>, mode: TailMode) -> (r: Tail)
        requires
            forall|i: int| 0 <= i < entries@.len() ==> #[trigger] entries@[i]@.len() > 0,
            entries@.len() <= u32::MAX,
            spec_size_sum(entries@) <= u32::MAX,
        ensures
            r.wf(),
            final(offsets)@.len() == entries@.len(),
            forall|i: int|
                0 <= i < entries@.len() ==> r.spec_placed(
                    #[trigger] final(offsets)@[i] as int,
                    entries@[i]@,
                ),
            entries@.len() > 0 ==> r.spec_buf().len() > 0,
            r.spec_buf().len() <= spec_size_sum(entries@),
            !r.spec_is_text() ==> r.spec_buf().len() + entries@.len() <= spec_size_sum(entries@),
            entries@.len() > 0 ==> (r.spec_is_text() <==> (mode == TailMode::Text
                && !entries_have_zero(entries@))),
    {
        let n = entries.len();

        // Text mode silently downgrades to binary when a zero byte occurs.
        let mut any_zero = false;
        let mut i: usize = 0;
        while i < n
            invariant
                n == entries@.len(),
                i <= n,
                any_zero == (exists|ii: int|
                    0 <= ii < i && has_zero_byte(#[trigger] entries@[ii]@)),
            decreases n - i,
        {
            let e = &entries[i];
            let elen = e.len();
            let mut j: usize = 0;
            let mut found = false;
            while j < elen
                invariant
                    elen == e@.len(),
                    j <= elen,
                    found == (exists|jj: int| 0 <= jj < j && e@[jj] == 0),
                decreases elen - j,
            {
                if e.get_bytes()[j] == 0 {
                    found = true;
                }
                j = j + 1;
            }
            if found {
                proof {
                    assert(has_zero_byte(entries@[i as int]@));
                }
                any_zero = true;
            }
            i = i + 1;
        }
        let binary = match mode {
            TailMode::Binary => true,
            TailMode::Text => any_zero,
        };

        // Sort an index permutation in suffix-lexicographic order; the
        // entry list itself stays in place.
        let mut order: Vec<usize> = Vec::new();
        let mut i: usize = 0;
        while i < n
            invariant
                n == entries@.len(),
                i <= n,
                order@.len() == i,
                forall|t: int| 0 <= t < i ==> #[trigger] order@[t] == t,
            decreases n - i,
        {
            order.push(i);
            i = i + 1;
        }
        proof {
            assert(order@.no_duplicates());
        }
        let mut i: usize = 1;
        while i < n
            invariant
                n == entries@.len(),
                order@.len() == n,
                i <= n || n == 0,
                order@.no_duplicates(),
                forall|t: int| 0 <= t < n ==> #[trigger] order@[t] < n,
            decreases n - i,
        {
            let mut j = i;
            while j > 0
                invariant
                    n == entries@.len(),
                    order@.len() == n,
                    j <= i < n,
                    order@.no_duplicates(),
                    forall|t: int| 0 <= t < n ==> #[trigger] order@[t] < n,
                decreases j,
            {
                let a = order[j];
                let b = order[j - 1];
                if rev_lex_less(&entries[a], &entries[b]) {
                    let ghost before = order@;
                    let moved = order.remove(j - 1);
                    order.insert(j, moved);
                    proof {
                        assert(order@ =~= before.update(j - 1, before[j as int]).update(
                            j as int,
                            before[j - 1],
                        ));
                        assert forall|t1: int, t2: int|
                            0 <= t1 < t2 < n implies #[trigger] order@[t1] != #[trigger] order@[t2] by {
                            if t1 == j - 1 && t2 == j {
                            } else if t1 == j - 1 {
                                assert(order@[t1] == before[j as int]);
                            } else if t1 == j {
                                assert(order@[t1] == before[j - 1]);
                            }
                        }
                        assert(order@.no_duplicates());
                    }
                    j = j - 1;
                } else {
                    break ;
                }
            }
            i = i + 1;
        }

        // Walk the permutation from its greatest element down, appending
        // each entry unless it is a suffix of the one stored just before.
        let mut buf: Vec<u8> = Vec::new();
        let mut ends = BitVec::new();
        let mut offs: Vec<u32> = Vec::new();
        let mut i: usize = 0;
        while i < n
            invariant
                i <= n,
                offs@.len() == i,
            decreases n - i,
        {
            offs.push(0);
            i = i + 1;
        }
        proof {
            lemma_sum_idx_subset(entries@, order@);
            lemma_sum_idx_nonneg(entries@, order@);
            assert(order@.subrange(0, n as int) =~= order@);
        }
        let mut jj: usize = n;
        while jj > 0
            invariant
                n == entries@.len(),
                n <= u32::MAX,
                forall|t: int| 0 <= t < n ==> #[trigger] entries@[t]@.len() > 0,
                spec_size_sum(entries@) <= u32::MAX,
                order@.len() == n,
                order@.no_duplicates(),
                forall|t: int| 0 <= t < n ==> #[trigger] order@[t] < n,
                offs@.len() == n,
                jj <= n,
                ends.wf(),
                !ends.is_built(),
                binary ==> ends@.len() == buf@.len(),
                !binary ==> ends@.len() == 0,
                buf@.len() > 0 && !binary ==> buf@.last() == 0,
                buf@.len() > 0 && binary ==> ends@.last(),
                buf@.len() + spec_sum_idx(entries@, order@.subrange(0, jj as int)) <= u32::MAX,
                buf@.len() + spec_sum_idx(entries@, order@.subrange(0, jj as int))
                    <= spec_size_sum(entries@),
                binary ==> buf@.len() + spec_sum_idx(entries@, order@.subrange(0, jj as int)) + (n
                    - jj) <= spec_size_sum(entries@),
                !binary ==> forall|t: int|
                    0 <= t < n ==> !has_zero_byte(#[trigger] entries@[t]@),
                forall|t: int|
                    jj <= t < n ==> {
                        let id = #[trigger] order@[t];
                        &&& offs@[id as int] < buf@.len()
                        &&& if binary {
                            bin_placed(buf@, ends@, offs@[id as int] as int, entries@[id as int]@)
                        } else {
                            text_placed(buf@, offs@[id as int] as int, entries@[id as int]@)
                        }
                    },
            decreases jj,
        {
            let j = jj - 1;
            let cur = order[j];
            let e = &entries[cur];
            let elen = e.len();

            let mut shared = false;
            let mut off: u32 = 0;
            if j + 1 < n {
                let prev = order[j + 1];
                let p = &entries[prev];
                let c = e.common_count(p);
                if c == elen {
                    // `e` is a suffix of `p`; reuse its storage
                    proof {
                        assert(spec_common_suffix(entries@[cur as int]@, entries@[prev as int]@, c as int));
                        assert(order@[j + 1] < n);
                        assert(offs@[order@[j + 1] as int] < buf@.len());
                        lemma_sum_idx_nonneg(entries@, order@.subrange(0, jj as int));
                        let poff = offs@[prev as int] as int;
                        let ps = entries@[prev as int]@;
                        if binary {
                            assert(bin_placed(buf@, ends@, poff, ps));
                        } else {
                            assert(text_placed(buf@, poff, ps));
                        }
                    }
                    let diff = p.len() - elen;
                    let prev_off = offs[prev];
                    off = prev_off + (diff as u32);
                    shared = true;
                    proof {
                        let ghost poff = prev_off as int;
                        let ghost ps = entries@[prev as int]@;
                        let ghost es = entries@[cur as int]@;
                        assert(es =~= ps.subrange(ps.len() - es.len(), ps.len() as int)) by {
                            assert(spec_common_suffix(es, ps, es.len() as int));
                        }
                        if binary {
                            lemma_bin_props(buf@, ends@, poff);
                            lemma_bin_offset(buf@, ends@, poff, diff as int);
                            assert(ends@[off as int + es.len() - 1] == ends@[poff + ps.len() - 1]);
                            assert(bin_placed(buf@, ends@, off as int, es));
                        } else {
                            lemma_text_props(buf@, poff);
                            lemma_text_offset(buf@, poff, diff as int);
                            assert(text_placed(buf@, off as int, es));
                        }
                    }
                }
            }
            if !shared {
                proof {
                    lemma_sum_idx_drop_last(entries@, order@.subrange(0, jj as int));
                    assert(order@.subrange(0, jj as int).drop_last() =~= order@.subrange(
                        0,
                        j as int,
                    ));
                    lemma_sum_idx_nonneg(entries@, order@.subrange(0, j as int));
                }
                off = buf.len() as u32;
                let ghost buf0 = buf@;
                let ghost ends0 = ends@;
                // append the raw bytes, then the terminator or flags
                let bytes = e.get_bytes();
                let mut k: usize = 0;
                while k < elen
                    invariant
                        elen == bytes@.len(),
                        bytes@ == entries@[cur as int]@,
                        k <= elen,
                        buf@ == buf0 + bytes@.subrange(0, k as int),
                        buf0.len() + elen <= u32::MAX,
                    decreases elen - k,
                {
                    buf.push(bytes[k]);
                    proof {
                        assert(buf@ =~= buf0 + bytes@.subrange(0, k + 1));
                    }
                    k = k + 1;
                }
                proof {
                    assert(buf@ =~= buf0 + entries@[cur as int]@);
                }
                if binary {
                    let mut k: usize = 1;
                    while k < elen
                        invariant
                            elen == entries@[cur as int]@.len(),
                            1 <= k <= elen,
                            ends.wf(),
                            !ends.is_built(),
                            ends@.len() == ends0.len() + k - 1,
                            ends0.len() + elen <= u32::MAX,
                            forall|t: int| 0 <= t < ends0.len() ==> ends@[t] == ends0[t],
                            forall|t: int| ends0.len() <= t < ends@.len() ==> !ends@[t],
                        decreases elen - k,
                    {
                        ends.push(false);
                        k = k + 1;
                    }
                    ends.push(true);
                } else {
                    buf.push(0);
                    proof {
                        assert(buf@ =~= buf0 + entries@[cur as int]@ + seq![0u8]);
                    }
                }
                proof {
                    let es = entries@[cur as int]@;
                    if binary {
                        lemma_bin_append(buf0, ends0, es, ends@);
                        assert(bin_placed(buf@, ends@, off as int, es));
                    } else {
                        assert(forall|kk: int| 0 <= kk < es.len() ==> es[kk] != 0) by {
                            assert(!has_zero_byte(es));
                        }
                        lemma_text_append(buf0, es);
                        assert(text_placed(buf@, off as int, es));
                    }
                    // previously placed strings survive the append
                    assert forall|t: int| jj <= t < n implies {
                        let id = #[trigger] order@[t];
                        &&& offs@[id as int] < buf@.len()
                        &&& if binary {
                            bin_placed(buf@, ends@, offs@[id as int] as int, entries@[id as int]@)
                        } else {
                            text_placed(buf@, offs@[id as int] as int, entries@[id as int]@)
                        }
                    } by {
                        let id = order@[t];
                        let o = offs@[id as int] as int;
                        let s = entries@[id as int]@;
                        if binary {
                            lemma_bin_extend(buf0, ends0, buf@, ends@, o);
                        } else {
                            lemma_text_extend(buf0, buf@, o);
                        }
                    }
                }
            } else {
                proof {
                    lemma_sum_idx_drop_last(entries@, order@.subrange(0, jj as int));
                    assert(order@.subrange(0, jj as int).drop_last() =~= order@.subrange(
                        0,
                        j as int,
                    ));
                    lemma_sum_idx_nonneg(entries@, order@.subrange(0, j as int));
                    let idx2 = order@.subrange(0, j as int);
                    assert(spec_sum_idx(entries@, idx2) >= 0);
                }
            }
            offs.set(cur, off);
            proof {
                // the new entry is placed, and older placements are intact
                assert forall|t: int| j <= t < n implies {
                    let id = #[trigger] order@[t];
                    &&& offs@[id as int] < buf@.len()
                    &&& if binary {
                        bin_placed(buf@, ends@, offs@[id as int] as int, entries@[id as int]@)
                    } else {
                        text_placed(buf@, offs@[id as int] as int, entries@[id as int]@)
                    }
                } by {
                    let id = order@[t];
                    if t == j {
                    } else {
                        assert(id != cur);
                    }
                }
            }
            jj = j;
        }
        let mut ends_final = ends;
        if !ends_final.is_empty() {
            ends_final.build();
        }
        let t = Tail { buf_: buf, end_flags_: ends_final };
        proof {
            if n > 0 {
                assert(order@[(n - 1) as int] < n);
                let id0 = order@[(n - 1) as int];
                assert(t.spec_buf().len() > 0) by {
                    assert(offs@[id0 as int] < t.spec_buf().len());
                }
                if binary {
                    assert(entries@[id0 as int]@.len() > 0);
                    assert(!t.spec_is_text());
                }
            }
            lemma_distinct_covers(order@, n as int);
            assert forall|i2: int| 0 <= i2 < n implies t.spec_placed(
                #[trigger] offs@[i2] as int,
                entries@[i2]@,
            ) by {
                assert(covered(order@, i2));
                let tt = choose|tt: int| 0 <= tt < order@.len() && order@[tt] == i2;
                assert(offs@[order@[tt] as int] < buf@.len());
            }
        }
        *offsets = offs;
        t
    }
}

} // verus!
