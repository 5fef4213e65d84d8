use crate::bit_vec::{spec_rank0, spec_rank1, BitVec};
use crate::config::{CacheLevel, Config, NodeOrder, TailMode};
use crate::entry::Entry;
use crate::error::Error;
use crate::key::{clone_bytes, copy_range, reverse_bytes, Key};
use crate::louds::{is_child_start_zero, lemma_parent_of_first_child};
use crate::tail::Tail;
use vstd::prelude::*;

verus! {

/// The sentinel in a cache entry's `extra` field marking a direct edge.
pub const INVALID_EXTRA: u16 = 0xFFFF;

/// One slot of the lossy per-level search cache: an edge from `parent` to
/// `child` under `label`; `extra` distinguishes direct edges from linked
/// edges, whose target is `link`.
#[derive(Clone, Copy, Debug)]
struct CacheEntry {
    parent: u32,
    child: u32,
    label: u8,
    extra: u16,
    link: u32,
}

/// One level of the recursive trie: the LOUDS shape, per-node label bytes
/// and flags, the link targets, the next level or the TAIL, and the
/// search cache.
pub struct LoudsTrie {
    louds: BitVec,
    terminal_flags: BitVec,
    link_flags: BitVec,
    bases: Vec<u8>,
    links: Vec<u32>,
    next: Option<Box<LoudsTrie>>,
    tail: Option<Tail>,
    cache: Vec<CacheEntry>,
    cache_mask: u32,
}

proof fn lemma_mask_bound(x: u32, m: u32)
    by (bit_vector)
    ensures
        x & m <= m,
{
}

impl LoudsTrie {
    pub closed spec fn spec_louds(self) -> Seq<bool> {
        self.louds@
    }

    pub closed spec fn spec_terminal(self) -> Seq<bool> {
        self.terminal_flags@
    }

    pub closed spec fn spec_node_count(self) -> int {
        self.bases@.len() as int
    }

    /// Bit vectors are built and sized alike, node ids fit 32 bits, the
    /// cache table matches its mask, and the deeper levels are sound.
    pub closed spec fn wf(self) -> bool
        decreases self,
    {
        &&& self.louds.wf()
        &&& self.louds.is_built()
        &&& self.terminal_flags.wf()
        &&& self.terminal_flags.is_built()
        &&& self.link_flags.wf()
        &&& self.link_flags.is_built()
        &&& self.terminal_flags@.len() == self.bases@.len()
        &&& self.link_flags@.len() == self.bases@.len()
        &&& 1 <= self.bases@.len() <= u32::MAX
        &&& self.louds@.len() == 2 * self.bases@.len() + 1
        &&& self.louds@[0]
        &&& !self.louds@[1]
        &&& spec_rank1(self.louds@, self.louds@.len() as int) == self.bases@.len()
        &&& self.links@.len() == spec_rank1(self.link_flags@, self.link_flags@.len() as int)
        &&& self.cache@.len() == self.cache_mask as int + 1
        &&& (match self.next {
            Some(b) => b.wf(),
            None => true,
        })
        &&& (match self.tail {
            Some(t) => t.wf(),
            None => true,
        })
    }

    pub fn node_count(&self) -> (r: usize)
        ensures
            r == self.spec_node_count(),
    {
        self.bases.len()
    }

    /// The position in the LOUDS sequence of node `v`'s first-child slot:
    /// one past the `(v + 1)`-th zero. Answers for every node id up to
    /// the node count, and for nothing else.
    pub fn child_start(&self, v: u32) -> (r: Result<usize, Error>)
        requires
            self.wf(),
        ensures
            r is Ok <==> v <= self.spec_node_count(),
            r matches Ok(cs) ==> cs >= 1 && is_child_start_zero(
                self.spec_louds(),
                v as int,
                cs - 1,
            ),
    {
        let n = self.bases.len();
        if (v as usize) > n {
            return Err(Error::Range);
        }
        let len = self.louds.len();
        let z = self.louds.select0(v as usize);
        proof {
            assert(z < len);
        }
        Ok(z + 1)
    }

    /// The first child of `v`, or `None` exactly when `v`'s child slot
    /// carries no set bit.
    pub fn first_child(&self, v: u32) -> (r: Result<Option<u32>, Error>)
        requires
            self.wf(),
        ensures
            r is Ok <==> v <= self.spec_node_count(),
            r matches Ok(None) ==> exists|z: int|
                #![trigger is_child_start_zero(self.spec_louds(), v as int, z)]
                {
                    &&& is_child_start_zero(self.spec_louds(), v as int, z)
                    &&& (z + 1 == self.spec_louds().len() || !self.spec_louds()[z + 1])
                },
            r matches Ok(Some(c)) ==> 1 <= c < self.spec_node_count(),
            r matches Ok(Some(c)) ==> exists|z: int|
                #![trigger is_child_start_zero(self.spec_louds(), v as int, z)]
                {
                    &&& is_child_start_zero(self.spec_louds(), v as int, z)
                    &&& z + 1 < self.spec_louds().len()
                    &&& self.spec_louds()[z + 1]
                    &&& c as int == spec_rank1(self.spec_louds(), z + 1)
                },
    {
        let cs = match self.child_start(v) {
            Ok(cs) => cs,
            Err(e) => {
                return Err(e);
            },
        };
        let len = self.louds.len();
        if cs >= len {
            proof {
                assert(is_child_start_zero(self.spec_louds(), v as int, cs - 1));
            }
            return Ok(None);
        }
        if !self.louds.at(cs) {
            proof {
                assert(is_child_start_zero(self.spec_louds(), v as int, cs - 1));
            }
            return Ok(None);
        }
        let c = self.louds.rank1(cs);
        proof {
            let s = self.spec_louds();
            // the edge bit pins the child id below the node count
            crate::bit_vec::lemma_rank1_step(s, cs as int);
            crate::bit_vec::lemma_rank1_monotone(s, cs as int + 1, s.len() as int);
            // the super-root prefix "10" puts every child slot at 2 or
            // later, so the child id is at least 1
            assert(cs >= 2);
            crate::bit_vec::lemma_rank1_step(s, 0);
            crate::bit_vec::lemma_rank1_step(s, 1);
            crate::bit_vec::lemma_rank1_monotone(s, 2, cs as int);
            assert(is_child_start_zero(s, v as int, cs - 1));
        }
        Ok(Some(c as u32))
    }

    /// The parent of node `u`, read off the zero-rank at `u`'s edge bit.
    /// Every node but the root has one.
    pub fn parent(&self, u: u32) -> (r: Result<u32, Error>)
        requires
            self.wf(),
        ensures
            r is Ok <==> 1 <= u < self.spec_node_count(),
            r matches Ok(p) ==> exists|q: int|
                {
                    &&& 0 <= q < self.spec_louds().len()
                    &&& self.spec_louds()[q]
                    &&& #[trigger] spec_rank1(self.spec_louds(), q) == u
                    &&& spec_rank0(self.spec_louds(), q) == p + 1
                },
    {
        let n = self.bases.len();
        if u == 0 || (u as usize) >= n {
            return Err(Error::Range);
        }
        let q = self.louds.select1(u as usize);
        let r0 = self.louds.rank0(q);
        proof {
            let s = self.spec_louds();
            // the edge bit of a non-root node sits past the super-root
            // prefix "10", so at least one zero precedes it
            assert(q >= 2) by {
                crate::bit_vec::lemma_rank1_step(s, 0);
                if q == 1 {
                    assert(s[1]);
                }
            }
            crate::bit_vec::lemma_rank1_step(s, 0);
            crate::bit_vec::lemma_rank1_step(s, 1);
            crate::bit_vec::lemma_rank1_monotone(s, 2, q as int);
            crate::bit_vec::lemma_rank1_monotone(s, q as int, s.len() as int);
            assert(1 <= spec_rank0(s, q as int) <= self.spec_node_count() + 1);
        }
        Ok((r0 - 1) as u32)
    }

    /// LOUDS consistency, executed: descending to the first child and
    /// coming back by the parent rule returns the starting node. `None`
    /// marks exactly the nodes whose child slot carries no set bit.
    pub fn parent_of_first_child(&self, v: u32) -> (r: Result<Option<u32>, Error>)
        requires
            self.wf(),
        ensures
            v <= self.spec_node_count() ==> r is Ok,
            r matches Ok(None) ==> exists|z: int|
                #![trigger is_child_start_zero(self.spec_louds(), v as int, z)]
                {
                    &&& is_child_start_zero(self.spec_louds(), v as int, z)
                    &&& (z + 1 == self.spec_louds().len() || !self.spec_louds()[z + 1])
                },
            r matches Ok(Some(p)) ==> p == v,
    {
        let c = match self.first_child(v) {
            Ok(Some(c)) => c,
            Ok(None) => {
                return Ok(None);
            },
            Err(e) => {
                return Err(e);
            },
        };
        let p = match self.parent(c) {
            Ok(p) => p,
            Err(e) => {
                return Err(e);
            },
        };
        proof {
            let s = self.spec_louds();
            let z = choose|z: int|
                #![trigger is_child_start_zero(s, v as int, z)]
                {
                    &&& is_child_start_zero(s, v as int, z)
                    &&& z + 1 < s.len()
                    &&& s[z + 1]
                    &&& c as int == spec_rank1(s, z + 1)
                };
            lemma_parent_of_first_child(s, v as int, z);
            let q = choose|q: int|
                {
                    &&& 0 <= q < s.len()
                    &&& s[q]
                    &&& #[trigger] spec_rank1(s, q) == c
                    &&& spec_rank0(s, q) == p + 1
                };
            assert(q == z + 1 && spec_rank0(s, q) - 1 == v);
        }
        Ok(Some(p))
    }
}

/// A key while the builder works on it: the bytes in this level's storage
/// orientation, the accumulated weight, and the input position the
/// terminal will be reported under.
struct BKey {
    bytes: Vec<u8>,
    w: u64,
    orig: u32,
}

/// Strict lexicographic order on byte strings: decided at the first
/// differing byte, with a proper prefix before its extensions.
pub open spec fn spec_lex_less(a: Seq<u8>, b: Seq<u8>) -> bool
    decreases a.len(),
{
    if a.len() == 0 {
        b.len() > 0
    } else if b.len() == 0 {
        false
    } else if a[0] != b[0] {
        a[0] < b[0]
    } else {
        spec_lex_less(a.drop_first(), b.drop_first())
    }
}

/// Compares two byte strings lexicographically.
fn lex_less(a: &Vec<u8>, b: &Vec<u8>) -> (r: bool)
    ensures
        r == spec_lex_less(a@, b@),
{
    let an = a.len();
    let bn = b.len();
    let mut i: usize = 0;
    proof {
        assert(a@.skip(0) =~= a@);
        assert(b@.skip(0) =~= b@);
    }
    while i < an && i < bn
        invariant
            an == a@.len(),
            bn == b@.len(),
            i <= an,
            i <= bn,
            spec_lex_less(a@, b@) == spec_lex_less(a@.skip(i as int), b@.skip(i as int)),
        decreases an - i,
    {
        proof {
            assert(a@.skip(i as int)[0] == a@[i as int]);
            assert(b@.skip(i as int)[0] == b@[i as int]);
        }
        if a[i] < b[i] {
            return true;
        }
        if a[i] > b[i] {
            return false;
        }
        proof {
            assert(a@.skip(i as int).drop_first() =~= a@.skip(i as int + 1));
            assert(b@.skip(i as int).drop_first() =~= b@.skip(i as int + 1));
        }
        i = i + 1;
    }
    proof {
        if i == an {
            assert(a@.skip(an as int) =~= Seq::<u8>::empty());
            assert(spec_lex_less(a@.skip(an as int), b@.skip(an as int)) == (b@.skip(
                an as int,
            ).len() > 0));
        } else {
            assert(b@.skip(bn as int) =~= Seq::<u8>::empty());
            assert(a@.skip(bn as int).len() > 0);
        }
    }
    an < bn
}

/// The cache table size for a level of `n` nodes: a power of two between
/// 256 and 65536 entries, scaled down by the cache level's divisor.
fn cache_table_size(n: usize, level: CacheLevel) -> (r: usize)
    ensures
        256 <= r <= 65536,
{
    let divisor: usize = match level {
        CacheLevel::Huge => 1,
        CacheLevel::Large => 2,
        CacheLevel::Normal => 4,
        CacheLevel::Small => 8,
        CacheLevel::Tiny => 16,
    };
    proof {
        assert(1 <= divisor <= 16);
    }
    let target = n / divisor;
    let mut size: usize = 256;
    while size < 65536 && size < target
        invariant
            256 <= size <= 65536,
        decreases 65536 - size,
    {
        if size <= 32768 {
            size = size * 2;
        } else {
            size = 65536;
        }
    }
    size
}

/// The level an empty key set builds: a bare, non-terminal root.
fn empty_level(cache_level: CacheLevel, root_terminal: bool) -> (r: LoudsTrie)
    ensures
        r.wf(),
        r.spec_level_count() == 1,
        r.spec_terminal()[0] == root_terminal,
{
    let mut louds = BitVec::new();
    proof {
        crate::bit_vec::lemma_rank1_push(louds@, true, 0);
    }
    louds.push(true);
    proof {
        crate::bit_vec::lemma_rank1_push(louds@, false, 1);
    }
    louds.push(false);
    proof {
        crate::bit_vec::lemma_rank1_push(louds@, false, 2);
    }
    louds.push(false);
    louds.build();
    let mut term = BitVec::new();
    term.push(root_terminal);
    term.build();
    let mut link = BitVec::new();
    proof {
        crate::bit_vec::lemma_rank1_push(link@, false, 0);
    }
    link.push(false);
    link.build();
    let mut bases: Vec<u8> = Vec::new();
    bases.push(0);
    let size = cache_table_size(1, cache_level);
    let mask = (size - 1) as u32;
    let mut cache: Vec<CacheEntry> = Vec::new();
    let mut ci: usize = 0;
    while ci < size
        invariant
            ci <= size,
            cache@.len() == ci,
        decreases size - ci,
    {
        cache.push(CacheEntry { parent: u32::MAX, child: 0, label: 0, extra: 0, link: 0 });
        ci = ci + 1;
    }
    LoudsTrie {
        louds,
        terminal_flags: term,
        link_flags: link,
        bases,
        links: Vec::new(),
        next: None,
        tail: None,
        cache,
        cache_mask: mask,
    }
}

/// One level of the build: lays the sorted keys out breadth first, one
/// node per distinct next byte, linking a lone key's whole remaining
/// suffix into the next level or the TAIL.
///
/// Returns the level and, for each input key, the node at which it
/// terminated. An empty key set builds: it makes a bare root. The keys
/// are nonempty byte strings; `root_terminal` says whether the level's
/// root ends a key of its own, and the built terminal flags carry it.
fn build_level(
    keys: Vec<BKey>,
    root_terminal: bool,
    depth: u32,
    num_tries: u32,
    cache_level: CacheLevel,
    tail_mode: TailMode,
    node_order: NodeOrder,
) -> (r: Result<(LoudsTrie, Vec<u32>), Error>)
    requires
        depth < num_tries,
        forall|i: int| 0 <= i < keys@.len() ==> (#[trigger] keys@[i]).bytes@.len() > 0,
    ensures
        r matches Ok(p) ==> p.0.wf() && p.1@.len() == keys@.len(),
        r matches Ok(p) ==> p.0.spec_level_count() <= num_tries - depth,
        r matches Ok(p) ==> (p.0.spec_terminal()[0] <==> root_terminal),
        r matches Err(e) ==> e == Error::Size || e == Error::Code,
        keys@.len() == 0 ==> r is Ok,
    decreases num_tries - depth, 1int,
{
    if keys.len() == 0 {
        return Ok((empty_level(cache_level, root_terminal), Vec::new()));
    }
    build_level_core(keys, root_terminal, depth, num_tries, cache_level, tail_mode, node_order)
}

/// The non-empty case of the level build.
fn build_level_core(
    keys: Vec<BKey>,
    root_terminal: bool,
    depth: u32,
    num_tries: u32,
    cache_level: CacheLevel,
    tail_mode: TailMode,
    node_order: NodeOrder,
) -> (r: Result<(LoudsTrie, Vec<u32>), Error>)
    requires
        depth < num_tries,
        forall|i: int| 0 <= i < keys@.len() ==> (#[trigger] keys@[i]).bytes@.len() > 0,
    ensures
        r matches Ok(p) ==> p.0.wf() && p.1@.len() == keys@.len(),
        r matches Ok(p) ==> p.0.spec_level_count() <= num_tries - depth,
        r matches Ok(p) ==> (p.0.spec_terminal()[0] <==> root_terminal),
        r matches Err(e) ==> e == Error::Size || e == Error::Code,
    decreases num_tries - depth, 0int,
{
    let n_keys = keys.len();
    if n_keys > u32::MAX as usize {
        return Err(Error::Size);
    }
    // total work bound: bytes plus keys plus root
    let mut total: u64 = 0;
    let mut i: usize = 0;
    while i < n_keys
        invariant
            n_keys == keys@.len(),
            i <= n_keys,
        decreases n_keys - i,
    {
        total = total.saturating_add(keys[i].bytes.len() as u64);
        i = i + 1;
    }
    let limit64 = total.saturating_add(n_keys as u64).saturating_add(2);
    if limit64 > u32::MAX as u64 {
        return Err(Error::Size);
    }
    let limit = limit64 as usize;

    // sort the keys so that keys sharing a prefix are adjacent
    let mut sorted_keys = keys;
    let mut i: usize = 1;
    while i < n_keys
        invariant
            n_keys == sorted_keys@.len(),
            1 <= i <= n_keys || n_keys == 0,
            forall|t: int| 0 <= t < n_keys ==> (#[trigger] sorted_keys@[t]).bytes@.len() > 0,
        decreases n_keys - i,
    {
        let mut j = i;
        while j > 0
            invariant
                n_keys == sorted_keys@.len(),
                j <= i < n_keys,
                forall|t: int| 0 <= t < n_keys ==> (#[trigger] sorted_keys@[t]).bytes@.len() > 0,
            decreases j,
        {
            if lex_less(&sorted_keys[i].bytes, &sorted_keys[j - 1].bytes) {
                j = j - 1;
            } else {
                break ;
            }
        }
        if j < i {
            let ghost before = sorted_keys@;
            let e = sorted_keys.remove(i);
            sorted_keys.insert(j, e);
            proof {
                assert forall|t: int|
                    0 <= t < n_keys implies (#[trigger] sorted_keys@[t]).bytes@.len() > 0 by {
                    if t < j {
                        assert(sorted_keys@[t] == before[t]);
                    } else if t == j {
                        assert(sorted_keys@[t] == before[i as int]);
                    } else if t <= i {
                        assert(sorted_keys@[t] == before[t - 1]);
                    } else {
                        assert(sorted_keys@[t] == before[t]);
                    }
                }
            }
        }
        i = i + 1;
    }

    // breadth-first layout; the queue holds one (lo, hi, pos) range per
    // node, indexed by node id
    let mut louds = BitVec::new();
    proof {
        crate::bit_vec::lemma_rank1_push(louds@, true, 0);
    }
    louds.push(true);
    proof {
        crate::bit_vec::lemma_rank1_push(louds@, false, 1);
    }
    louds.push(false);
    let mut term = BitVec::new();
    let mut link = BitVec::new();
    let mut bases: Vec<u8> = Vec::new();
    bases.push(0);
    proof {
        crate::bit_vec::lemma_rank1_push(link@, false, 0);
    }
    link.push(false);
    let mut queue: Vec<(u32, u32, u32)> = Vec::new();
    queue.push((0, n_keys as u32, 0));
    let mut link_labels: Vec<Vec<u8>> = Vec::new();
    let mut link_weights: Vec<u64> = Vec::new();
    let mut edges: Vec<(u32, u8, u32, bool, u32)> = Vec::new();
    let mut terms_out: Vec<u32> = Vec::new();
    let mut i: usize = 0;
    while i < n_keys
        invariant
            i <= n_keys,
            terms_out@.len() == i,
        decreases n_keys - i,
    {
        terms_out.push(0);
        i = i + 1;
    }

    let mut qi: usize = 0;
    while qi < queue.len()
        invariant
            n_keys == sorted_keys@.len(),
            n_keys <= u32::MAX,
            limit <= u32::MAX,
            qi <= queue@.len(),
            1 <= queue@.len() <= limit,
            queue@.len() == bases@.len(),
            queue@.len() == link@.len(),
            term@.len() == qi,
            terms_out@.len() == n_keys,
            link_labels@.len() == link_weights@.len(),
            louds.wf(),
            term.wf(),
            link.wf(),
            bases@.len() <= u32::MAX,
            louds@.len() == queue@.len() + qi + 1,
            louds@[0],
            !louds@[1],
            spec_rank1(louds@, louds@.len() as int) == queue@.len(),
            spec_rank1(link@, link@.len() as int) == link_labels@.len(),
            queue@[0] == (0u32, n_keys as u32, 0u32),
            forall|t: int| 0 <= t < n_keys ==> (#[trigger] sorted_keys@[t]).bytes@.len() > 0,
            forall|t: int|
                0 <= t < link_labels@.len() ==> (#[trigger] link_labels@[t])@.len() > 0,
            qi >= 1 ==> term@.len() >= 1 && term@[0] == root_terminal,
        decreases limit + 1 - qi,
    {
        let (lo, hi, pos) = queue[qi];
        let lo = lo as usize;
        let hi = hi as usize;
        let pos = pos as usize;
        if lo > hi || hi > n_keys {
            return Err(Error::Code);
        }
        // keys ending here make this node terminal; the root's flag is
        // the caller's, since no stored key is empty
        let mut p = lo;
        let mut is_term = qi == 0 && root_terminal;
        while p < hi
            invariant
                n_keys == sorted_keys@.len(),
                lo <= p <= hi <= n_keys,
                terms_out@.len() == n_keys,
                qi <= queue@.len(),
                qi == 0 ==> pos == 0 && is_term == root_terminal,
                forall|t: int| 0 <= t < n_keys ==> (#[trigger] sorted_keys@[t]).bytes@.len() > 0,
            decreases hi - p,
        {
            if sorted_keys[p].bytes.len() != pos {
                break ;
            }
            let orig = sorted_keys[p].orig as usize;
            if orig >= n_keys {
                return Err(Error::Code);
            }
            if qi > u32::MAX as usize {
                return Err(Error::Code);
            }
            terms_out.set(orig, qi as u32);
            is_term = true;
            p = p + 1;
        }
        if term.len() >= u32::MAX as usize {
            return Err(Error::Size);
        }
        term.push(is_term);

        // group the remaining keys by their next byte
        let mut groups: Vec<(u32, u32, u8, u64)> = Vec::new();
        while p < hi
            invariant
                n_keys == sorted_keys@.len(),
                lo <= p <= hi <= n_keys,
            decreases hi - p,
        {
            if sorted_keys[p].bytes.len() <= pos {
                return Err(Error::Code);
            }
            let c = sorted_keys[p].bytes[pos];
            let a = p;
            let mut w: u64 = sorted_keys[p].w;
            p = p + 1;
            while p < hi
                invariant
                    n_keys == sorted_keys@.len(),
                    a < p <= hi <= n_keys,
                decreases hi - p,
            {
                if sorted_keys[p].bytes.len() <= pos {
                    return Err(Error::Code);
                }
                if sorted_keys[p].bytes[pos] != c {
                    break ;
                }
                w = w.saturating_add(sorted_keys[p].w);
                p = p + 1;
            }
            if a > u32::MAX as usize || p > u32::MAX as usize {
                return Err(Error::Code);
            }
            groups.push((a as u32, p as u32, c, w));
        }

        // order the children: by descending weight with ties on the
        // label, or by ascending label
        match node_order {
            NodeOrder::Weight => {
                let glen = groups.len();
                let mut gi: usize = 1;
                while gi < glen
                    invariant
                        glen == groups@.len(),
                        1 <= gi <= glen || glen == 0,
                    decreases glen - gi,
                {
                    let mut gj = gi;
                    while gj > 0
                        invariant
                            glen == groups@.len(),
                            gj <= gi < glen,
                        decreases gj,
                    {
                        let a = groups[gi];
                        let b = groups[gj - 1];
                        if a.3 > b.3 || (a.3 == b.3 && a.2 < b.2) {
                            gj = gj - 1;
                        } else {
                            break ;
                        }
                    }
                    if gj < gi {
                        let e = groups.remove(gi);
                        groups.insert(gj, e);
                    }
                    gi = gi + 1;
                }
            },
            NodeOrder::Label => {},
        }

        // emit one child per group
        let mut g: usize = 0;
        while g < groups.len()
            invariant
                n_keys == sorted_keys@.len(),
                n_keys <= u32::MAX,
                limit <= u32::MAX,
                g <= groups@.len(),
                qi < queue@.len(),
                1 <= queue@.len() <= limit,
                queue@.len() == bases@.len(),
                queue@.len() == link@.len(),
                terms_out@.len() == n_keys,
                link_labels@.len() == link_weights@.len(),
                louds.wf(),
                link.wf(),
                bases@.len() <= u32::MAX,
                louds@.len() == queue@.len() + qi + 1,
                louds@[0],
                !louds@[1],
                spec_rank1(louds@, louds@.len() as int) == queue@.len(),
                spec_rank1(link@, link@.len() as int) == link_labels@.len(),
                queue@[0] == (0u32, n_keys as u32, 0u32),
                forall|t: int|
                    0 <= t < link_labels@.len() ==> (#[trigger] link_labels@[t])@.len() > 0,
                term@.len() == qi + 1,
                term@[0] == root_terminal,
            decreases groups@.len() - g,
        {
            let (ga, gb, gc, gw) = groups[g];
            let a = ga as usize;
            let b = gb as usize;
            if a >= b || b > n_keys {
                return Err(Error::Code);
            }
            if queue.len() >= limit {
                return Err(Error::Size);
            }
            let child = queue.len();
            if child > u32::MAX as usize || qi > u32::MAX as usize {
                return Err(Error::Code);
            }
            if louds.len() >= u32::MAX as usize {
                return Err(Error::Size);
            }
            proof {
                crate::bit_vec::lemma_rank1_push(louds@, true, louds@.len() as int);
            }
            louds.push(true);
            bases.push(gc);
            let klen = sorted_keys[a].bytes.len();
            if klen > u32::MAX as usize {
                return Err(Error::Size);
            }
            if b - a == 1 && klen >= 2 && klen - 2 >= pos {
                // a lone key with at least two bytes left: a linked edge
                proof {
                    crate::bit_vec::lemma_rank1_push(link@, true, link@.len() as int);
                }
                link.push(true);
                let label = copy_range(&sorted_keys[a].bytes, pos, klen - pos);
                link_labels.push(label);
                link_weights.push(gw);
                if link_labels.len() > u32::MAX as usize {
                    return Err(Error::Size);
                }
                edges.push((qi as u32, gc, child as u32, true, (link_labels.len() - 1) as u32));
                queue.push((ga, gb, klen as u32));
            } else {
                proof {
                    crate::bit_vec::lemma_rank1_push(link@, false, link@.len() as int);
                }
                link.push(false);
                edges.push((qi as u32, gc, child as u32, false, 0));
                if pos >= u32::MAX as usize {
                    return Err(Error::Size);
                }
                queue.push((ga, gb, (pos + 1) as u32));
            }
            g = g + 1;
        }
        if louds.len() >= u32::MAX as usize {
            return Err(Error::Size);
        }
        proof {
            crate::bit_vec::lemma_rank1_push(louds@, false, louds@.len() as int);
        }
        louds.push(false);
        qi = qi + 1;
    }

    let n_nodes = queue.len();
    louds.build();
    term.build();
    link.build();

    // resolve the linked edges into the next level or the TAIL
    let mut links: Vec<u32> = Vec::new();
    let mut next: Option<Box<LoudsTrie>> = None;
    let mut tail: Option<Tail> = None;
    let n_links = link_labels.len();
    if n_links > u32::MAX as usize {
        return Err(Error::Size);
    }
    if n_links > 0 {
        if depth + 1 < num_tries {
            // the next level stores the labels, reversed once at the
            // boundary of the first level
            let mut next_keys: Vec<BKey> = Vec::new();
            let mut l: usize = 0;
            while l < n_links
                invariant
                    n_links == link_labels@.len(),
                    n_links == link_weights@.len(),
                    n_links <= u32::MAX,
                    l <= n_links,
                    next_keys@.len() == l,
                    forall|t: int|
                        0 <= t < link_labels@.len() ==> (#[trigger] link_labels@[t])@.len() > 0,
                    forall|t: int| 0 <= t < l ==> (#[trigger] next_keys@[t]).bytes@.len() > 0,
                decreases n_links - l,
            {
                let bytes = if depth == 0 {
                    reverse_bytes(&link_labels[l])
                } else {
                    clone_bytes(&link_labels[l])
                };
                next_keys.push(BKey { bytes, w: link_weights[l], orig: l as u32 });
                l = l + 1;
            }
            let (next_trie, next_terms) = match build_level(
                next_keys,
                false,
                depth + 1,
                num_tries,
                cache_level,
                tail_mode,
                node_order,
            ) {
                Ok(p) => p,
                Err(e) => {
                    return Err(e);
                },
            };
            let mut l: usize = 0;
            while l < n_links
                invariant
                    n_links == next_terms@.len(),
                    l <= n_links,
                    links@.len() == l,
                decreases n_links - l,
            {
                links.push(next_terms[l]);
                l = l + 1;
            }
            next = Some(Box::new(next_trie));
        } else {
            // deepest level: the labels go to the TAIL in consumption
            // orientation
            let mut entries: Vec<Entry> = Vec::new();
            let mut size_sum: u64 = 0;
            let mut l: usize = 0;
            while l < n_links
                invariant
                    n_links == link_labels@.len(),
                    n_links <= u32::MAX,
                    l <= n_links,
                    entries@.len() == l,
                    forall|t: int| 0 <= t < l ==> #[trigger] entries@[t]@.len() > 0,
                    size_sum as int == crate::tail::spec_size_sum(entries@),
                    size_sum <= u32::MAX,
                decreases n_links - l,
            {
                let bytes = if depth == 0 {
                    clone_bytes(&link_labels[l])
                } else {
                    reverse_bytes(&link_labels[l])
                };
                if bytes.len() == 0 {
                    return Err(Error::Code);
                }
                if size_sum + 2 > u32::MAX as u64 {
                    return Err(Error::Size);
                }
                if bytes.len() as u64 > u32::MAX as u64 - 1 - size_sum {
                    return Err(Error::Size);
                }
                let ghost before = entries@;
                let blen = bytes.len();
                entries.push(Entry::new(bytes));
                proof {
                    assert(entries@ =~= before.push(entries@.last()));
                    crate::tail::lemma_size_sum_snoc(before, entries@.last());
                }
                size_sum = size_sum + blen as u64;
                size_sum = size_sum + 1;
                l = l + 1;
            }
            let mut offsets: Vec<u32> = Vec::new();
            let t = Tail::build(&entries, &mut offsets, tail_mode);
            let mut l: usize = 0;
            while l < n_links
                invariant
                    n_links == offsets@.len(),
                    l <= n_links,
                    links@.len() == l,
                decreases n_links - l,
            {
                links.push(offsets[l]);
                l = l + 1;
            }
            tail = Some(t);
        }
    }

    // the lossy cache: hash every edge into a fixed table
    let size = cache_table_size(n_nodes, cache_level);
    let mask = (size - 1) as u32;
    let mut cache: Vec<CacheEntry> = Vec::new();
    let mut ci: usize = 0;
    while ci < size
        invariant
            ci <= size,
            cache@.len() == ci,
        decreases size - ci,
    {
        cache.push(CacheEntry { parent: u32::MAX, child: 0, label: 0, extra: 0, link: 0 });
        ci = ci + 1;
    }
    let mut ei: usize = 0;
    while ei < edges.len()
        invariant
            cache@.len() == size,
            size == mask as int + 1,
            ei <= edges@.len(),
            links@.len() == n_links,
        decreases edges@.len() - ei,
    {
        let (par, lab, child, is_link, li) = edges[ei];
        let idx = ((par ^ (par << 5u32) ^ (lab as u32)) & mask) as usize;
        proof {
            lemma_mask_bound(par ^ (par << 5u32) ^ (lab as u32), mask);
        }
        if is_link {
            if (li as usize) < links.len() {
                let lv = links[li as usize];
                cache.set(
                    idx,
                    CacheEntry { parent: par, child, label: lab, extra: 0, link: lv },
                );
            }
        } else {
            cache.set(
                idx,
                CacheEntry { parent: par, child, label: lab, extra: INVALID_EXTRA, link: 0 },
            );
        }
        ei = ei + 1;
    }

    let out = LoudsTrie {
        louds,
        terminal_flags: term,
        link_flags: link,
        bases,
        links,
        next,
        tail,
        cache,
        cache_mask: mask,
    };
    Ok((out, terms_out))
}

impl LoudsTrie {
    /// Walks upward from an inner node to this level's root, consuming
    /// query bytes: one per direct edge, a recursive match per linked
    /// edge.
    fn match_trie(&self, node: u32, query: &Vec<u8>, pos: &mut usize, prefix_ok: bool) -> (r:
        Result<bool, Error>)
        requires
            self.wf(),
            *old(pos) <= query@.len(),
        ensures
            *old(pos) <= *final(pos) <= query@.len(),
        decreases self, 1int,
    {
        let n = self.bases.len();
        let mut cur = node;
        let mut steps: usize = 0;
        while cur != 0
            invariant
                self.wf(),
                n == self.bases@.len(),
                steps <= n,
                *old(pos) <= *pos <= query@.len(),
            decreases n - steps,
        {
            if steps >= n {
                return Err(Error::Code);
            }
            steps = steps + 1;
            if cur as usize >= n {
                return Err(Error::Code);
            }
            if self.link_flags.at(cur as usize) {
                proof {
                    crate::bit_vec::lemma_rank1_step(self.link_flags@, cur as int);
                    crate::bit_vec::lemma_rank1_monotone(
                        self.link_flags@,
                        cur as int + 1,
                        self.link_flags@.len() as int,
                    );
                }
                let l = self.link_flags.rank1(cur as usize);
                let lv = self.links[l];
                let ok = match self.match_link(lv, query, pos, prefix_ok) {
                    Ok(b) => b,
                    Err(e) => {
                        return Err(e);
                    },
                };
                if !ok {
                    return Ok(false);
                }
            } else {
                if *pos >= query.len() {
                    if prefix_ok {
                        return Ok(true);
                    }
                    return Ok(false);
                }
                if self.bases[cur as usize] != query[*pos] {
                    return Ok(false);
                }
                *pos = *pos + 1;
            }
            let len = self.louds.len();
            let ones = self.louds.rank1(len);
            if cur as usize >= ones {
                return Err(Error::Code);
            }
            let q = self.louds.select1(cur as usize);
            let r0 = self.louds.rank0(q);
            if r0 == 0 || r0 - 1 > u32::MAX as usize {
                return Err(Error::Code);
            }
            cur = (r0 - 1) as u32;
        }
        Ok(true)
    }

    /// Follows a linked edge into the next level or the TAIL.
    fn match_link(&self, link: u32, query: &Vec<u8>, pos: &mut usize, prefix_ok: bool) -> (r:
        Result<bool, Error>)
        requires
            self.wf(),
            *old(pos) <= query@.len(),
        ensures
            *old(pos) <= *final(pos) <= query@.len(),
        decreases self, 0int,
    {
        match &self.next {
            Some(b) => b.match_trie(link, query, pos, prefix_ok),
            None => {
                match &self.tail {
                    Some(t) => t.match_at(link, query, pos, prefix_ok),
                    None => Ok(false),
                }
            },
        }
    }

    /// One downward step at the outermost level: the cache is consulted
    /// first, then the node's child run is scanned. A linked edge that
    /// fails after consuming query bytes is a committed failure: no
    /// sibling can match, because siblings carry distinct first bytes.
    fn find_child(
        &self,
        query: &Vec<u8>,
        pos: &mut usize,
        node: &mut u32,
        use_cache: bool,
        prefix_ok: bool,
    ) -> (r: Result<bool, Error>)
        requires
            self.wf(),
            *old(pos) < query@.len(),
        ensures
            *old(pos) <= *final(pos) <= query@.len(),
            r matches Ok(true) ==> *final(pos) > *old(pos),
        decreases self, 2int,
    {
        let qlen = query.len();
        if use_cache {
            let h = (*node ^ (*node << 5u32)) ^ (query[*pos] as u32);
            let idx = (h & self.cache_mask) as usize;
            proof {
                lemma_mask_bound(h, self.cache_mask);
            }
            let e = self.cache[idx];
            if e.parent == *node && e.label == query[*pos] {
                if e.extra != INVALID_EXTRA {
                    let saved = *pos;
                    let ok = match self.match_link(e.link, query, pos, prefix_ok) {
                        Ok(b) => b,
                        Err(e2) => {
                            return Err(e2);
                        },
                    };
                    if ok {
                        if *pos <= saved {
                            return Err(Error::Code);
                        }
                        *node = e.child;
                        return Ok(true);
                    }
                    if *pos != saved {
                        return Ok(false);
                    }
                    // fall through to the authoritative scan
                } else {
                    *pos = *pos + 1;
                    *node = e.child;
                    return Ok(true);
                }
            }
        }
        let len = self.louds.len();
        let zeros = self.louds.rank0(len);
        if (*node as usize) >= zeros {
            return Err(Error::Code);
        }
        let z = self.louds.select0(*node as usize);
        let mut lp = z + 1;
        if lp < 1 || lp - 1 < (*node as usize) {
            return Err(Error::Code);
        }
        let n = self.bases.len();
        let mut child = lp - 1 - (*node as usize);
        while lp < len
            invariant
                self.wf(),
                len == self.spec_louds().len(),
                n == self.bases@.len(),
                *old(pos) <= *pos <= query@.len(),
            decreases len - lp,
        {
            if !self.louds.at(lp) {
                return Ok(false);
            }
            if child >= n {
                return Err(Error::Code);
            }
            if self.link_flags.at(child) {
                proof {
                    crate::bit_vec::lemma_rank1_step(self.link_flags@, child as int);
                    crate::bit_vec::lemma_rank1_monotone(
                        self.link_flags@,
                        child as int + 1,
                        self.link_flags@.len() as int,
                    );
                }
                let l = self.link_flags.rank1(child);
                let lv = self.links[l];
                let saved = *pos;
                let ok = match self.match_link(lv, query, pos, prefix_ok) {
                    Ok(b) => b,
                    Err(e2) => {
                        return Err(e2);
                    },
                };
                if ok {
                    if *pos <= saved {
                        return Err(Error::Code);
                    }
                    *node = child as u32;
                    return Ok(true);
                }
                if *pos != saved {
                    return Ok(false);
                }
            } else {
                if *pos >= query.len() {
                    return Ok(false);
                }
                if self.bases[child] == query[*pos] {
                    *pos = *pos + 1;
                    *node = child as u32;
                    return Ok(true);
                }
            }
            child = child + 1;
            lp = lp + 1;
        }
        Ok(false)
    }

    /// Reconstructs, in upward spelling, the string stored for an inner
    /// node: the reverse of this level's key, which is the downward label
    /// of the edge it encodes.
    fn restore_label(&self, node: u32, out: &mut Vec<u8>) -> (r: Result<(), Error>)
        requires
            self.wf(),
        decreases self,
    {
        let n = self.bases.len();
        let mut cur = node;
        let mut steps: usize = 0;
        while cur != 0
            invariant
                self.wf(),
                n == self.bases@.len(),
                steps <= n,
            decreases n - steps,
        {
            if steps >= n {
                return Err(Error::Code);
            }
            steps = steps + 1;
            if cur as usize >= n {
                return Err(Error::Code);
            }
            if self.link_flags.at(cur as usize) {
                proof {
                    crate::bit_vec::lemma_rank1_step(self.link_flags@, cur as int);
                    crate::bit_vec::lemma_rank1_monotone(
                        self.link_flags@,
                        cur as int + 1,
                        self.link_flags@.len() as int,
                    );
                }
                let l = self.link_flags.rank1(cur as usize);
                let lv = self.links[l];
                match &self.next {
                    Some(b) => {
                        match b.restore_label(lv, out) {
                            Ok(()) => {},
                            Err(e) => {
                                return Err(e);
                            },
                        }
                    },
                    None => {
                        match &self.tail {
                            Some(t) => {
                                if t.is_empty() {
                                    return Err(Error::State);
                                }
                                if (lv as usize) >= t.len() {
                                    return Err(Error::Code);
                                }
                                t.restore(lv as usize, out);
                            },
                            None => {
                                return Err(Error::Code);
                            },
                        }
                    },
                }
            } else {
                out.push(self.bases[cur as usize]);
            }
            let len = self.louds.len();
            let ones = self.louds.rank1(len);
            if cur as usize >= ones {
                return Err(Error::Code);
            }
            let q = self.louds.select1(cur as usize);
            let r0 = self.louds.rank0(q);
            if r0 == 0 || r0 - 1 > u32::MAX as usize {
                return Err(Error::Code);
            }
            cur = (r0 - 1) as u32;
        }
        Ok(())
    }

    /// Appends the full key ending at an outer-level terminal node. The
    /// root spells the empty key.
    fn key_of_terminal(&self, node: u32, key_out: &mut Vec<u8>) -> (r: Result<(), Error>)
        requires
            self.wf(),
        ensures
            node == 0 ==> r is Ok && final(key_out)@ == old(key_out)@,
    {
        let n = self.bases.len();
        let mut buf: Vec<u8> = Vec::new();
        let mut cur = node;
        let mut steps: usize = 0;
        while cur != 0
            invariant
                self.wf(),
                n == self.bases@.len(),
                steps <= n,
                node == 0 ==> cur == 0,
                node == 0 ==> buf@.len() == 0,
            decreases n - steps,
        {
            if steps >= n {
                return Err(Error::Code);
            }
            steps = steps + 1;
            if cur as usize >= n {
                return Err(Error::Code);
            }
            if self.link_flags.at(cur as usize) {
                proof {
                    crate::bit_vec::lemma_rank1_step(self.link_flags@, cur as int);
                    crate::bit_vec::lemma_rank1_monotone(
                        self.link_flags@,
                        cur as int + 1,
                        self.link_flags@.len() as int,
                    );
                }
                let l = self.link_flags.rank1(cur as usize);
                let lv = self.links[l];
                let mut chunk: Vec<u8> = Vec::new();
                match &self.next {
                    Some(b) => {
                        match b.restore_label(lv, &mut chunk) {
                            Ok(()) => {},
                            Err(e) => {
                                return Err(e);
                            },
                        }
                    },
                    None => {
                        match &self.tail {
                            Some(t) => {
                                if t.is_empty() {
                                    return Err(Error::State);
                                }
                                if (lv as usize) >= t.len() {
                                    return Err(Error::Code);
                                }
                                t.restore(lv as usize, &mut chunk);
                            },
                            None => {
                                return Err(Error::Code);
                            },
                        }
                    },
                }
                // the chunk arrives in downward spelling; the upward
                // collection wants it reversed
                let mut k = chunk.len();
                while k > 0
                    invariant
                        k <= chunk@.len(),
                    decreases k,
                {
                    buf.push(chunk[k - 1]);
                    k = k - 1;
                }
            } else {
                buf.push(self.bases[cur as usize]);
            }
            let len = self.louds.len();
            let ones = self.louds.rank1(len);
            if cur as usize >= ones {
                return Err(Error::Code);
            }
            let q = self.louds.select1(cur as usize);
            let r0 = self.louds.rank0(q);
            if r0 == 0 || r0 - 1 > u32::MAX as usize {
                return Err(Error::Code);
            }
            cur = (r0 - 1) as u32;
        }
        let mut k = buf.len();
        while k > 0
            invariant
                k <= buf@.len(),
                node == 0 ==> k == 0,
                node == 0 ==> key_out@ == old(key_out)@,
            decreases k,
        {
            key_out.push(buf[k - 1]);
            k = k - 1;
        }
        Ok(())
    }

    /// Serialized footprint of this level and everything below it: a
    /// header word, the three bit vectors, the label bytes, the link
    /// words, the cache slots, then the next level or the TAIL. Sums
    /// saturate at the largest representable value.
    pub closed spec fn spec_io_size(self) -> int
        decreases self,
    {
        let own = sat_add_s(
            sat_add_s(
                sat_add_s(
                    sat_add_s(
                        sat_add_s(
                            sat_add_s(8, self.louds.spec_io_size()),
                            self.terminal_flags.spec_io_size(),
                        ),
                        self.link_flags.spec_io_size(),
                    ),
                    self.bases@.len() as int,
                ),
                sat_mul_s(self.links@.len() as int, 4),
            ),
            sat_mul_s(self.cache@.len() as int, 13),
        );
        let with_next = match self.next {
            Some(b) => sat_add_s(own, b.spec_io_size()),
            None => own,
        };
        match self.tail {
            Some(t) => sat_add_s(with_next, t.spec_io_size()),
            None => with_next,
        }
    }

    /// The footprint, computed exactly and deterministically.
    fn io_size_level(&self) -> (r: u64)
        requires
            self.wf(),
        ensures
            r as int == self.spec_io_size(),
        decreases self,
    {
        let mut sz: u64 = 8;
        sz = sat_add(sz, self.louds.io_size());
        sz = sat_add(sz, self.terminal_flags.io_size());
        sz = sat_add(sz, self.link_flags.io_size());
        sz = sat_add(sz, self.bases.len() as u64);
        sz = sat_add(sz, sat_mul(self.links.len() as u64, 4));
        sz = sat_add(sz, sat_mul(self.cache.len() as u64, 13));
        match &self.next {
            Some(b) => {
                sz = sat_add(sz, b.io_size_level());
            },
            None => {},
        }
        match &self.tail {
            Some(t) => {
                sz = sat_add(sz, t.io_size());
            },
            None => {},
        }
        sz
    }

    /// The length of the level chain hanging off this level, itself
    /// included.
    pub closed spec fn spec_level_count(self) -> int
        decreases self,
    {
        1 + (match self.next {
            Some(b) => b.spec_level_count(),
            None => 0int,
        })
    }

    fn level_count(&self) -> (r: u32)
        requires
            self.wf(),
        ensures
            r >= 1,
            self.spec_level_count() < u32::MAX ==> r as int == self.spec_level_count(),
        decreases self,
    {
        match &self.next {
            Some(b) => {
                let rest = b.level_count();
                if rest == u32::MAX {
                    rest
                } else {
                    rest + 1
                }
            },
            None => 1,
        }
    }
}

/// Saturating addition and multiplication, at the spec level.
pub open spec fn sat_add_s(a: int, b: int) -> int {
    crate::bit_vec::min2(a + b, u64::MAX as int)
}

pub open spec fn sat_mul_s(a: int, b: int) -> int {
    crate::bit_vec::min2(a * b, u64::MAX as int)
}

/// Addition that stops at the largest representable value.
fn sat_add(a: u64, b: u64) -> (r: u64)
    ensures
        r as int == sat_add_s(a as int, b as int),
{
    if a > u64::MAX - b {
        u64::MAX
    } else {
        a + b
    }
}

/// Multiplication that stops at the largest representable value.
fn sat_mul(a: u64, b: u64) -> (r: u64)
    ensures
        r as int == sat_mul_s(a as int, b as int),
{
    if a == 0 {
        return 0;
    }
    if b > u64::MAX / a {
        proof {
            assert(a as int * b as int > u64::MAX) by (nonlinear_arith)
                requires
                    a >= 1,
                    b > u64::MAX as int / a as int,
            ;
        }
        u64::MAX
    } else {
        proof {
            assert(a as int * b as int <= u64::MAX) by (nonlinear_arith)
                requires
                    a >= 1,
                    b <= u64::MAX as int / a as int,
            ;
        }
        a * b
    }
}

/// The built dictionary: the outermost trie level plus the key count and
/// level count it was built with.
pub struct Dict {
    trie: LoudsTrie,
    n_keys: u32,
    n_levels: u32,
}

impl Dict {
    pub closed spec fn spec_num_keys(self) -> u32 {
        self.n_keys
    }

    pub closed spec fn spec_num_levels(self) -> u32 {
        self.n_levels
    }

    /// The level chain is sound and the stored key count is the number of
    /// terminals of the outermost level.
    pub closed spec fn wf(self) -> bool {
        &&& self.trie.wf()
        &&& self.n_keys as int == spec_rank1(
            self.trie.spec_terminal(),
            self.trie.spec_terminal().len() as int,
        )
    }

    /// Builds the dictionary from weighted keys. Duplicate keys collapse
    /// onto one terminal; the root is terminal exactly when the empty key
    /// is among the inputs, and the level count stays within the
    /// configured number of tries.
    pub fn build(keys: &Vec<Key>, config: &Config) -> (r: Result<Dict, Error>)
        requires
            config.valid(),
        ensures
            r matches Ok(d) ==> d.wf(),
            r matches Ok(d) ==> 1 <= d.spec_num_levels()
                <= config.spec_num_tries().spec_get(),
            r matches Ok(d) ==> (d.spec_terminal()[0] <==> exists|i: int|
                0 <= i < keys@.len() && (#[trigger] keys@[i])@.len() == 0),
            r matches Err(e) ==> e == Error::Size || e == Error::Code,
            keys@.len() == 0 ==> r is Ok,
    {
        let n = keys.len();
        if n > u32::MAX as usize {
            return Err(Error::Size);
        }
        let mut bkeys: Vec<BKey> = Vec::new();
        let mut has_empty = false;
        let mut i: usize = 0;
        while i < n
            invariant
                n == keys@.len(),
                i <= n,
                n <= u32::MAX,
                bkeys@.len() <= i,
                has_empty == (exists|t: int| 0 <= t < i && (#[trigger] keys@[t])@.len() == 0),
                forall|t: int| 0 <= t < bkeys@.len() ==> (#[trigger] bkeys@[t]).bytes@.len() > 0,
            decreases n - i,
        {
            let k = &keys[i];
            if k.len() > u32::MAX as usize {
                return Err(Error::Size);
            }
            if k.len() == 0 {
                // the empty key carries no bytes; it ends at the root
                has_empty = true;
            } else {
                let slot = bkeys.len();
                bkeys.push(
                    BKey {
                        bytes: clone_bytes(k.get_slice()),
                        w: k.get_weight() as u64,
                        orig: slot as u32,
                    },
                );
            }
            i = i + 1;
        }
        let nt = config.num_tries().get();
        let (trie, _terms) = match build_level(
            bkeys,
            has_empty,
            0,
            nt,
            config.cache_level(),
            config.tail_mode(),
            config.node_order(),
        ) {
            Ok(p) => p,
            Err(e) => {
                return Err(e);
            },
        };
        let ones = trie.terminal_flags.num_ones();
        proof {
            crate::bit_vec::lemma_rank1_bounds(
                trie.terminal_flags@,
                trie.terminal_flags@.len() as int,
            );
        }
        if ones > u32::MAX as usize {
            return Err(Error::Code);
        }
        let n_levels = trie.level_count();
        Ok(Dict { trie, n_keys: ones as u32, n_levels })
    }

    pub closed spec fn spec_terminal(self) -> Seq<bool> {
        self.trie.spec_terminal()
    }

    /// Exact lookup: walks the whole query downward and reports the dense
    /// key id of the terminal it lands on, if any. The empty query is
    /// decided exactly: it answers, and names id 0 precisely when the
    /// root is terminal, that is, when the empty key is a member.
    pub fn lookup(&self, query: &Vec<u8>) -> (r: Result<Option<u32>, Error>)
        requires
            self.wf(),
        ensures
            r matches Ok(Some(id)) ==> id < self.spec_num_keys(),
            query@.len() == 0 ==> r == (if self.spec_terminal()[0] {
                Ok::<Option<u32>, Error>(Some(0u32))
            } else {
                Ok::<Option<u32>, Error>(None)
            }),
    {
        self.lookup_walk(query, true)
    }

    /// Exact lookup with the cache disabled: same outcome, slow path
    /// only.
    pub fn lookup_nocache(&self, query: &Vec<u8>) -> (r: Result<Option<u32>, Error>)
        requires
            self.wf(),
        ensures
            r matches Ok(Some(id)) ==> id < self.spec_num_keys(),
            query@.len() == 0 ==> r == (if self.spec_terminal()[0] {
                Ok::<Option<u32>, Error>(Some(0u32))
            } else {
                Ok::<Option<u32>, Error>(None)
            }),
    {
        self.lookup_walk(query, false)
    }

    fn lookup_walk(&self, query: &Vec<u8>, use_cache: bool) -> (r: Result<Option<u32>, Error>)
        requires
            self.wf(),
        ensures
            r matches Ok(Some(id)) ==> id < self.spec_num_keys(),
            query@.len() == 0 ==> r == (if self.spec_terminal()[0] {
                Ok::<Option<u32>, Error>(Some(0u32))
            } else {
                Ok::<Option<u32>, Error>(None)
            }),
    {
        let qlen = query.len();
        let mut pos: usize = 0;
        let mut node: u32 = 0;
        while pos < qlen
            invariant
                self.wf(),
                qlen == query@.len(),
                pos <= qlen,
                qlen == 0 ==> node == 0,
            decreases qlen - pos,
        {
            let ok = match self.trie.find_child(query, &mut pos, &mut node, use_cache, false) {
                Ok(b) => b,
                Err(e) => {
                    return Err(e);
                },
            };
            if !ok {
                return Ok(None);
            }
        }
        let r = self.terminal_id(node);
        proof {
            if qlen == 0 {
                assert(spec_rank1(self.spec_terminal(), 0) == 0);
            }
        }
        r
    }

    /// The dense id of a node, if it is terminal: its rank among the
    /// terminal flags, which is below the key count. Every in-range node
    /// is answered: `Some` exactly on terminal nodes.
    fn terminal_id(&self, node: u32) -> (r: Result<Option<u32>, Error>)
        requires
            self.wf(),
        ensures
            (node as int) < self.spec_terminal().len() ==> r is Ok,
            r matches Ok(Some(id)) ==> {
                &&& (node as int) < self.spec_terminal().len()
                &&& self.spec_terminal()[node as int]
                &&& id as int == spec_rank1(self.spec_terminal(), node as int)
                &&& id < self.spec_num_keys()
            },
            r matches Ok(None) ==> (node as int) < self.spec_terminal().len()
                && !self.spec_terminal()[node as int],
    {
        let n = self.trie.terminal_flags.len();
        if (node as usize) >= n {
            return Err(Error::Code);
        }
        if !self.trie.terminal_flags.at(node as usize) {
            return Ok(None);
        }
        let id = self.trie.terminal_flags.rank1(node as usize);
        proof {
            let s = self.spec_terminal();
            crate::bit_vec::lemma_rank1_step(s, node as int);
            crate::bit_vec::lemma_rank1_monotone(s, node as int + 1, s.len() as int);
            assert(s[node as int] && id as int == spec_rank1(s, node as int));
        }
        Ok(Some(id as u32))
    }

    /// Rebuilds the key with the given id. Fails with a range error when
    /// the id is not below `num_keys`. Id 0 with a terminal root is the
    /// empty key: the call succeeds and emits nothing.
    pub fn reverse_lookup(&self, id: u32, key_out: &mut Vec<u8>) -> (r: Result<(), Error>)
        requires
            self.wf(),
        ensures
            id >= self.spec_num_keys() ==> r == Err::<(), Error>(Error::Range),
            r is Ok ==> id < self.spec_num_keys(),
            id == 0 && self.spec_terminal()[0] ==> r is Ok && final(key_out)@ == old(key_out)@,
    {
        proof {
            let s = self.spec_terminal();
            if s.len() >= 1 && s[0] {
                crate::bit_vec::lemma_rank1_step(s, 0);
                crate::bit_vec::lemma_rank1_monotone(s, 1, s.len() as int);
            }
        }
        if id >= self.n_keys {
            return Err(Error::Range);
        }
        let node = self.trie.terminal_flags.select1(id as usize);
        proof {
            let s = self.spec_terminal();
            if id == 0 && s[0] {
                // rank pins the terminal of id 0 to the root
                crate::bit_vec::lemma_select1_unique(s, 0, node as int);
            }
        }
        if node > u32::MAX as usize {
            return Err(Error::Code);
        }
        self.trie.key_of_terminal(node as u32, key_out)
    }

    /// Every key that is a prefix of the query, as `(id, length)` pairs
    /// in increasing length order.
    pub fn common_prefix_search(&self, query: &Vec<u8>) -> (r: Result<Vec<(u32, u32)>, Error>)
        requires
            self.wf(),
        ensures
            r matches Ok(v) ==> forall|i: int|
                0 <= i < v@.len() ==> (#[trigger] v@[i]).0 < self.spec_num_keys() && v@[i].1
                    <= query@.len(),
            r matches Ok(v) ==> ((v@.len() >= 1 && v@[0] == (0u32, 0u32))
                <==> self.spec_terminal()[0]),
    {
        self.prefix_walk(query, true)
    }

    /// Prefix search with the cache disabled: same outcome, slow path
    /// only.
    pub fn common_prefix_search_nocache(&self, query: &Vec<u8>) -> (r: Result<
        Vec<(u32, u32)>,
        Error,
    >)
        requires
            self.wf(),
        ensures
            r matches Ok(v) ==> forall|i: int|
                0 <= i < v@.len() ==> (#[trigger] v@[i]).0 < self.spec_num_keys() && v@[i].1
                    <= query@.len(),
            r matches Ok(v) ==> ((v@.len() >= 1 && v@[0] == (0u32, 0u32))
                <==> self.spec_terminal()[0]),
    {
        self.prefix_walk(query, false)
    }

    /// The shared walk: yields the root first when the empty key is a
    /// member, then one pair per terminal passed on the way down.
    fn prefix_walk(&self, query: &Vec<u8>, use_cache: bool) -> (r: Result<Vec<(u32, u32)>, Error>)
        requires
            self.wf(),
        ensures
            r matches Ok(v) ==> forall|i: int|
                0 <= i < v@.len() ==> (#[trigger] v@[i]).0 < self.spec_num_keys() && v@[i].1
                    <= query@.len(),
            r matches Ok(v) ==> ((v@.len() >= 1 && v@[0] == (0u32, 0u32))
                <==> self.spec_terminal()[0]),
    {
        let qlen = query.len();
        if qlen > u32::MAX as usize {
            return Err(Error::Size);
        }
        let mut out: Vec<(u32, u32)> = Vec::new();
        let mut pos: usize = 0;
        let mut node: u32 = 0;
        proof {
            assert(spec_rank1(self.spec_terminal(), 0) == 0);
        }
        match self.terminal_id(node) {
            Ok(Some(id)) => {
                out.push((id, 0));
            },
            Ok(None) => {},
            Err(e) => {
                return Err(e);
            },
        }
        while pos < qlen
            invariant
                self.wf(),
                qlen == query@.len(),
                qlen <= u32::MAX,
                pos <= qlen,
                forall|i: int|
                    0 <= i < out@.len() ==> (#[trigger] out@[i]).0 < self.spec_num_keys()
                        && out@[i].1 <= query@.len(),
                self.spec_terminal()[0] ==> out@.len() >= 1 && out@[0] == (0u32, 0u32),
                !self.spec_terminal()[0] ==> forall|i: int|
                    0 <= i < out@.len() ==> (#[trigger] out@[i]).1 >= 1,
            decreases qlen - pos,
        {
            let ok = match self.trie.find_child(query, &mut pos, &mut node, use_cache, false) {
                Ok(b) => b,
                Err(e) => {
                    return Err(e);
                },
            };
            if !ok {
                return Ok(out);
            }
            match self.terminal_id(node) {
                Ok(Some(id)) => {
                    out.push((id, pos as u32));
                },
                Ok(None) => {},
                Err(e) => {
                    return Err(e);
                },
            }
        }
        Ok(out)
    }

    /// Every key that the query is a prefix of, as `(id, key)` pairs in
    /// the depth-first order implied by the node order. The empty query
    /// enumerates from the root, so a member empty key is yielded first,
    /// under id 0.
    pub fn predictive_search(&self, query: &Vec<u8>) -> (r: Result<Vec<(u32, Vec<u8>)>, Error>)
        requires
            self.wf(),
        ensures
            r matches Ok(v) ==> forall|i: int|
                0 <= i < v@.len() ==> (#[trigger] v@[i]).0 < self.spec_num_keys(),
            query@.len() == 0 && self.spec_terminal()[0] ==> (r matches Ok(v) ==> v@.len() >= 1
                && (v@[0]).0 == 0),
    {
        let qlen = query.len();
        let mut out: Vec<(u32, Vec<u8>)> = Vec::new();
        let mut pos: usize = 0;
        let mut node: u32 = 0;
        while pos < qlen
            invariant
                self.wf(),
                qlen == query@.len(),
                pos <= qlen,
                out@.len() == 0,
                qlen == 0 ==> node == 0,
            decreases qlen - pos,
        {
            let ok = match self.trie.find_child(query, &mut pos, &mut node, true, true) {
                Ok(b) => b,
                Err(e) => {
                    return Err(e);
                },
            };
            if !ok {
                return Ok(out);
            }
        }
        // depth-first enumeration of the subtree below `node`
        let n = self.trie.bases.len();
        let mut stack: Vec<u32> = Vec::new();
        stack.push(node);
        let mut steps: usize = 0;
        while stack.len() > 0
            invariant
                self.wf(),
                n == self.trie.bases@.len(),
                n <= u32::MAX,
                steps <= n,
                qlen == query@.len(),
                forall|i: int|
                    0 <= i < out@.len() ==> (#[trigger] out@[i]).0 < self.spec_num_keys(),
                (qlen == 0 && self.spec_terminal()[0] && steps == 0) ==> (stack@.len() == 1
                    && stack@[0] == 0 && out@.len() == 0),
                (qlen == 0 && self.spec_terminal()[0] && steps >= 1) ==> (out@.len() >= 1 && (
                out@[0]).0 == 0),
            decreases n - steps,
        {
            if steps >= n {
                return Err(Error::Code);
            }
            steps = steps + 1;
            let v = match stack.pop() {
                Some(v) => v,
                None => {
                    return Err(Error::Code);
                },
            };
            proof {
                assert(spec_rank1(self.spec_terminal(), 0) == 0);
            }
            match self.terminal_id(v) {
                Ok(Some(id)) => {
                    let mut key: Vec<u8> = Vec::new();
                    match self.trie.key_of_terminal(v, &mut key) {
                        Ok(()) => {},
                        Err(e) => {
                            return Err(e);
                        },
                    }
                    out.push((id, key));
                },
                Ok(None) => {},
                Err(e) => {
                    return Err(e);
                },
            }
            // push the children in reverse so the first child pops first
            let len = self.trie.louds.len();
            let zeros = self.trie.louds.rank0(len);
            if (v as usize) >= zeros {
                return Err(Error::Code);
            }
            let z = self.trie.louds.select0(v as usize);
            let lp0 = z + 1;
            if lp0 < 1 || lp0 - 1 < (v as usize) {
                return Err(Error::Code);
            }
            let first = lp0 - 1 - (v as usize);
            let mut cnt: usize = 0;
            let mut lp = lp0;
            while lp < len
                invariant
                    self.wf(),
                    len == self.trie.spec_louds().len(),
                    lp0 <= lp <= len,
                    cnt == lp - lp0,
                decreases len - lp,
            {
                if !self.trie.louds.at(lp) {
                    break ;
                }
                cnt = cnt + 1;
                lp = lp + 1;
            }
            let mut k = cnt;
            while k > 0
                invariant
                    k <= cnt,
                    cnt <= usize::MAX - first,
                    self.wf(),
                    forall|i: int|
                        0 <= i < out@.len() ==> (#[trigger] out@[i]).0 < self.spec_num_keys(),
                decreases k,
            {
                let c = first + k - 1;
                if c > u32::MAX as usize {
                    return Err(Error::Code);
                }
                if stack.len() > n {
                    return Err(Error::Code);
                }
                stack.push(c as u32);
                k = k - 1;
            }
        }
        Ok(out)
    }

    pub fn num_keys(&self) -> (r: u32)
        ensures
            r == self.spec_num_keys(),
    {
        self.n_keys
    }

    /// The outermost trie level, for direct LOUDS navigation.
    pub fn trie_ref(&self) -> (r: &LoudsTrie)
        requires
            self.wf(),
        ensures
            r.wf(),
    {
        &self.trie
    }

    /// The number of trie levels actually built.
    pub fn num_tries(&self) -> (r: u32)
        ensures
            r == self.spec_num_levels(),
    {
        self.n_levels
    }

    /// Serialized footprint of the whole dictionary in bytes: a pure
    /// function of the built structure, so two equal dictionaries report
    /// equal sizes.
    pub closed spec fn spec_io_size(self) -> int {
        sat_add_s(8, self.trie.spec_io_size())
    }

    /// The footprint, computed exactly and deterministically.
    pub fn io_size(&self) -> (r: u64)
        requires
            self.wf(),
        ensures
            r as int == self.spec_io_size(),
    {
        sat_add(8, self.trie.io_size_level())
    }
}


} // verus!
