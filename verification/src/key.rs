use vstd::prelude::*;

verus! {

/// The per-key auxiliary slot: before the build it carries the key's
/// 32-bit weight, after the build the terminal node id. The builder
/// enforces the phase discipline; the slot itself is just 32 bits.
#[derive(Clone, Copy, Debug, PartialEq, Eq, Structural)]
pub struct Union {
    bits_: u32,
}

impl Union {
    pub closed spec fn spec_bits(self) -> u32 {
        self.bits_
    }

    pub fn new() -> (r: Union)
        ensures
            r.spec_bits() == 0,
    {
        Union { bits_: 0 }
    }

    pub fn get_weight(&self) -> (r: u32)
        ensures
            r == self.spec_bits(),
    {
        self.bits_
    }

    pub fn get_terminal(&self) -> (r: usize)
        ensures
            r == self.spec_bits(),
    {
        self.bits_ as usize
    }

    pub fn set_weight(&mut self, weight: u32)
        ensures
            final(self).spec_bits() == weight,
    {
        self.bits_ = weight;
    }

    pub fn set_terminal(&mut self, terminal: usize)
        requires
            terminal <= u32::MAX,
        ensures
            final(self).spec_bits() == terminal,
    {
        self.bits_ = terminal as u32;
    }
}

/// An input record: a byte string, the weight/terminal slot, and the id
/// assigned during the build. Indexing and subslicing run front to back.
#[derive(Clone, Debug)]
pub struct Key {
    slice_: Vec<u8>,
    union_: Union,
    id_: u32,
}

impl View for Key {
    type V = Seq<u8>;

    closed spec fn view(&self) -> Seq<u8> {
        self.slice_@
    }
}

impl Key {
    pub closed spec fn spec_union(self) -> Union {
        self.union_
    }

    pub closed spec fn spec_id(self) -> u32 {
        self.id_
    }

    pub fn new(slice: Vec<u8>) -> (r: Key)
        ensures
            r@ == slice@,
            r.spec_union().spec_bits() == 0,
            r.spec_id() == 0,
    {
        Key { slice_: slice, union_: Union::new(), id_: 0 }
    }

    pub fn with_weight(&self, weight: u32) -> (r: Key)
        ensures
            r@ == self@,
            r.spec_union().spec_bits() == weight,
            r.spec_id() == self.spec_id(),
    {
        let mut out = Key { slice_: clone_bytes(&self.slice_), union_: self.union_, id_: self.id_ };
        out.set_weight(weight);
        out
    }

    pub fn at(&self, i: usize) -> (r: u8)
        requires
            i < self@.len(),
        ensures
            r == self@[i as int],
    {
        self.slice_[i]
    }

    /// Restricts the key to `length` bytes starting `pos` bytes from the
    /// front.
    pub fn subslice(&mut self, pos: usize, length: usize)
        requires
            length <= old(self)@.len(),
            pos <= old(self)@.len() - length,
        ensures
            final(self)@ == old(self)@.subrange(pos as int, pos as int + length as int),
            final(self).spec_union() == old(self).spec_union(),
            final(self).spec_id() == old(self).spec_id(),
    {
        self.slice_ = copy_range(&self.slice_, pos, length);
    }

    pub fn set_slice(&mut self, slice: Vec<u8>)
        requires
            slice@.len() <= u32::MAX,
        ensures
            final(self)@ == slice@,
            final(self).spec_union() == old(self).spec_union(),
            final(self).spec_id() == old(self).spec_id(),
    {
        self.slice_ = slice;
    }

    pub fn set_weight(&mut self, weight: u32)
        ensures
            final(self)@ == old(self)@,
            final(self).spec_union().spec_bits() == weight,
            final(self).spec_id() == old(self).spec_id(),
    {
        self.union_.set_weight(weight);
    }

    pub fn set_terminal(&mut self, terminal: usize)
        requires
            terminal <= u32::MAX,
        ensures
            final(self)@ == old(self)@,
            final(self).spec_union().spec_bits() == terminal,
            final(self).spec_id() == old(self).spec_id(),
    {
        self.union_.set_terminal(terminal);
    }

    pub fn set_id(&mut self, id: usize)
        requires
            id <= u32::MAX,
        ensures
            final(self)@ == old(self)@,
            final(self).spec_union() == old(self).spec_union(),
            final(self).spec_id() == id,
    {
        self.id_ = id as u32;
    }

    pub fn get_slice(&self) -> (r: &Vec<u8>)
        ensures
            r@ == self@,
    {
        &self.slice_
    }

    pub fn get_weight(&self) -> (r: u32)
        ensures
            r == self.spec_union().spec_bits(),
    {
        self.union_.get_weight()
    }

    pub fn get_terminal(&self) -> (r: usize)
        ensures
            r == self.spec_union().spec_bits(),
    {
        self.union_.get_terminal()
    }

    pub fn get_id(&self) -> (r: usize)
        ensures
            r == self.spec_id(),
    {
        self.id_ as usize
    }

    pub fn len(&self) -> (r: usize)
        ensures
            r == self@.len(),
    {
        self.slice_.len()
    }
}

/// Just like `Key`, except indexing and subslicing run from the tail end
/// of the byte string; used where suffix sharing is wanted.
#[derive(Clone, Debug)]
pub struct ReverseKey {
    slice_: Vec<u8>,
    union_: Union,
    id_: u32,
}

impl View for ReverseKey {
    type V = Seq<u8>;

    closed spec fn view(&self) -> Seq<u8> {
        self.slice_@
    }
}

impl ReverseKey {
    pub closed spec fn spec_union(self) -> Union {
        self.union_
    }

    pub closed spec fn spec_id(self) -> u32 {
        self.id_
    }

    pub fn new(slice: Vec<u8>) -> (r: ReverseKey)
        ensures
            r@ == slice@,
            r.spec_union().spec_bits() == 0,
            r.spec_id() == 0,
    {
        ReverseKey { slice_: slice, union_: Union::new(), id_: 0 }
    }

    pub fn with_weight(&self, weight: u32) -> (r: ReverseKey)
        ensures
            r@ == self@,
            r.spec_union().spec_bits() == weight,
            r.spec_id() == self.spec_id(),
    {
        let mut out = ReverseKey {
            slice_: clone_bytes(&self.slice_),
            union_: self.union_,
            id_: self.id_,
        };
        out.set_weight(weight);
        out
    }

    /// The `i`-th byte counted from the tail end.
    pub fn at(&self, i: usize) -> (r: u8)
        requires
            i < self@.len(),
        ensures
            r == self@[self@.len() - 1 - i],
    {
        self.slice_[self.slice_.len() - i - 1]
    }

    /// Restricts the key to `length` bytes starting `pos` bytes from the
    /// tail end.
    pub fn subslice(&mut self, pos: usize, length: usize)
        requires
            length <= old(self)@.len(),
            pos <= old(self)@.len() - length,
        ensures
            final(self)@ == old(self)@.subrange(
                old(self)@.len() - pos - length,
                old(self)@.len() - pos,
            ),
            final(self).spec_union() == old(self).spec_union(),
            final(self).spec_id() == old(self).spec_id(),
    {
        let new_end = self.slice_.len() - pos;
        let new_begin = new_end - length;
        self.slice_ = copy_range(&self.slice_, new_begin, length);
    }

    pub fn set_slice(&mut self, slice: Vec<u8>)
        requires
            slice@.len() <= u32::MAX,
        ensures
            final(self)@ == slice@,
            final(self).spec_union() == old(self).spec_union(),
            final(self).spec_id() == old(self).spec_id(),
    {
        self.slice_ = slice;
    }

    pub fn set_weight(&mut self, weight: u32)
        ensures
            final(self)@ == old(self)@,
            final(self).spec_union().spec_bits() == weight,
            final(self).spec_id() == old(self).spec_id(),
    {
        self.union_.set_weight(weight);
    }

    pub fn set_terminal(&mut self, terminal: usize)
        requires
            terminal <= u32::MAX,
        ensures
            final(self)@ == old(self)@,
            final(self).spec_union().spec_bits() == terminal,
            final(self).spec_id() == old(self).spec_id(),
    {
        self.union_.set_terminal(terminal);
    }

    pub fn set_id(&mut self, id: usize)
        requires
            id <= u32::MAX,
        ensures
            final(self)@ == old(self)@,
            final(self).spec_union() == old(self).spec_union(),
            final(self).spec_id() == id,
    {
        self.id_ = id as u32;
    }

    pub fn get_slice(&self) -> (r: &Vec<u8>)
        ensures
            r@ == self@,
    {
        &self.slice_
    }

    pub fn get_weight(&self) -> (r: u32)
        ensures
            r == self.spec_union().spec_bits(),
    {
        self.union_.get_weight()
    }

    pub fn get_terminal(&self) -> (r: usize)
        ensures
            r == self.spec_union().spec_bits(),
    {
        self.union_.get_terminal()
    }

    pub fn get_id(&self) -> (r: usize)
        ensures
            r == self.spec_id(),
    {
        self.id_ as usize
    }

    pub fn len(&self) -> (r: usize)
        ensures
            r == self@.len(),
    {
        self.slice_.len()
    }
}

/// Copies `length` bytes of `src` starting at `pos` into a fresh vector.
pub fn copy_range(src: &Vec<u8>, pos: usize, length: usize) -> (r: Vec<u8>)
    requires
        pos + length <= src@.len(),
    ensures
        r@ == src@.subrange(pos as int, pos as int + length as int),
{
    let total = src.len();
    let mut out: Vec<u8> = Vec::new();
    let mut i: usize = 0;
    while i < length
        invariant
            total == src@.len(),
            pos + length <= total,
            i <= length,
            out@ == src@.subrange(pos as int, pos as int + i as int),
        decreases length - i,
    {
        out.push(src[pos + i]);
        proof {
            assert(out@ =~= src@.subrange(pos as int, pos as int + (i + 1) as int));
        }
        i = i + 1;
    }
    out
}

/// Copies a whole byte vector.
pub fn clone_bytes(src: &Vec<u8>) -> (r: Vec<u8>)
    ensures
        r@ == src@,
{
    let r = copy_range(src, 0, src.len());
    proof {
        assert(src@.subrange(0, src@.len() as int) =~= src@);
    }
    r
}

/// Copies a byte vector back to front.
pub fn reverse_bytes(src: &Vec<u8>) -> (r: Vec<u8>)
    ensures
        r@ == src@.reverse(),
{
    let n = src.len();
    let mut out: Vec<u8> = Vec::new();
    let mut i: usize = 0;
    while i < n
        invariant
            n == src@.len(),
            i <= n,
            out@.len() == i,
            forall|k: int| 0 <= k < i ==> out@[k] == src@[n - 1 - k],
        decreases n - i,
    {
        out.push(src[n - 1 - i]);
        i = i + 1;
    }
    proof {
        assert(out@ =~= src@.reverse());
    }
    out
}

} // verus!
