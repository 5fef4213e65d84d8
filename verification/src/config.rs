use crate::error::Error;
use vstd::prelude::*;

verus! {

/// Unspecified settings are replaced with their defaults: a flags word of 0
/// is equivalent to the default number of tries, cache level, tail mode and
/// node order.
pub const MIN_NUM_TRIES: u32 = 0x00001;
pub const MAX_NUM_TRIES: u32 = 0x0007F;

pub const NUM_TRIES_MASK: u32 = 0x0007F;
pub const CACHE_LEVEL_MASK: u32 = 0x00F80;
pub const TAIL_MODE_MASK: u32 = 0x0F000;
pub const NODE_ORDER_MASK: u32 = 0xF0000;
pub const CONFIG_MASK: u32 = 0xFFFFF;

/// A dictionary consists of 3 tries by default. Usually more tries make a
/// dictionary space-efficient but time-inefficient.
#[derive(Clone, Copy, Debug, PartialEq, Eq, Structural)]
pub struct NumTries {
    num_: u32,
}

impl NumTries {
    pub closed spec fn spec_get(self) -> u32 {
        self.num_
    }

    pub open spec fn valid(self) -> bool {
        MIN_NUM_TRIES <= self.spec_get() <= MAX_NUM_TRIES
    }

    pub fn new(num: u32) -> (r: NumTries)
        requires
            MIN_NUM_TRIES <= num <= MAX_NUM_TRIES,
        ensures
            r.spec_get() == num,
    {
        NumTries { num_: num }
    }

    pub fn get(&self) -> (r: u32)
        ensures
            r == self.spec_get(),
    {
        self.num_
    }
}

impl Default for NumTries {
    fn default() -> (r: NumTries)
        ensures
            r.spec_get() == 3,
    {
        NumTries::new(3)
    }
}

/// The search functions are accelerated by a cache. The cache level selects
/// the target table size per trie level; a larger cache enables faster
/// search but takes more space.
#[derive(Clone, Copy, Debug, PartialEq, Eq, Structural)]
pub enum CacheLevel {
    Huge,
    Large,
    Normal,
    Small,
    Tiny,
}

impl CacheLevel {
    /// The bit pattern of this option inside a configuration flags word.
    pub open spec fn spec_bits(self) -> u32 {
        match self {
            CacheLevel::Huge => 0x00080,
            CacheLevel::Large => 0x00100,
            CacheLevel::Normal => 0x00200,
            CacheLevel::Small => 0x00400,
            CacheLevel::Tiny => 0x00800,
        }
    }

    pub fn bits(&self) -> (r: u32)
        ensures
            r == self.spec_bits(),
    {
        match self {
            CacheLevel::Huge => 0x00080,
            CacheLevel::Large => 0x00100,
            CacheLevel::Normal => 0x00200,
            CacheLevel::Small => 0x00400,
            CacheLevel::Tiny => 0x00800,
        }
    }
}

impl Default for CacheLevel {
    fn default() -> (r: CacheLevel)
        ensures
            r == CacheLevel::Normal,
    {
        CacheLevel::Normal
    }
}

/// The two TAIL representations. `Text` merges last labels as
/// zero-terminated strings and is available if and only if the last labels
/// contain no zero byte; if one does, the setting is automatically switched
/// to `Binary`. `Binary` merges last labels as raw byte sequences and marks
/// their ends in a bit vector.
#[derive(Clone, Copy, Debug, PartialEq, Eq, Structural)]
pub enum TailMode {
    Text,
    Binary,
}

impl TailMode {
    /// The bit pattern of this option inside a configuration flags word.
    pub open spec fn spec_bits(self) -> u32 {
        match self {
            TailMode::Text => 0x01000,
            TailMode::Binary => 0x02000,
        }
    }

    pub fn bits(&self) -> (r: u32)
        ensures
            r == self.spec_bits(),
    {
        match self {
            TailMode::Text => 0x01000,
            TailMode::Binary => 0x02000,
        }
    }
}

impl Default for TailMode {
    fn default() -> (r: TailMode)
        ensures
            r == TailMode::Text,
    {
        TailMode::Text
    }
}

/// The arrangement of nodes affects the time cost of matching and the order
/// of predictive search. `Label` arranges siblings in ascending label
/// order; `Weight` arranges them in descending weight order, which enables
/// faster matching.
#[derive(Clone, Copy, Debug, PartialEq, Eq, Structural)]
pub enum NodeOrder {
    Label,
    Weight,
}

impl NodeOrder {
    /// The bit pattern of this option inside a configuration flags word.
    pub open spec fn spec_bits(self) -> u32 {
        match self {
            NodeOrder::Label => 0x10000,
            NodeOrder::Weight => 0x20000,
        }
    }

    pub fn bits(&self) -> (r: u32)
        ensures
            r == self.spec_bits(),
    {
        match self {
            NodeOrder::Label => 0x10000,
            NodeOrder::Weight => 0x20000,
        }
    }
}

impl Default for NodeOrder {
    fn default() -> (r: NodeOrder)
        ensures
            r == NodeOrder::Weight,
    {
        NodeOrder::Weight
    }
}

#[derive(Clone, Copy, Debug, PartialEq, Eq, Structural)]
pub struct Config {
    num_tries_: NumTries,
    cache_level_: CacheLevel,
    tail_mode_: TailMode,
    node_order_: NodeOrder,
}

/// Whether a flags word decodes to a configuration: no reserved bit is set
/// and every populated field holds a defined option.
pub open spec fn spec_flags_valid(f: u32) -> bool {
    &&& f & !CONFIG_MASK == 0
    &&& {
        ||| f & CACHE_LEVEL_MASK == 0
        ||| f & CACHE_LEVEL_MASK == 0x00080
        ||| f & CACHE_LEVEL_MASK == 0x00100
        ||| f & CACHE_LEVEL_MASK == 0x00200
        ||| f & CACHE_LEVEL_MASK == 0x00400
        ||| f & CACHE_LEVEL_MASK == 0x00800
    }
    &&& {
        ||| f & TAIL_MODE_MASK == 0
        ||| f & TAIL_MODE_MASK == 0x01000
        ||| f & TAIL_MODE_MASK == 0x02000
    }
    &&& {
        ||| f & NODE_ORDER_MASK == 0
        ||| f & NODE_ORDER_MASK == 0x10000
        ||| f & NODE_ORDER_MASK == 0x20000
    }
}

impl Config {
    pub closed spec fn spec_num_tries(self) -> NumTries {
        self.num_tries_
    }

    pub closed spec fn spec_cache_level(self) -> CacheLevel {
        self.cache_level_
    }

    pub closed spec fn spec_tail_mode(self) -> TailMode {
        self.tail_mode_
    }

    pub closed spec fn spec_node_order(self) -> NodeOrder {
        self.node_order_
    }

    pub open spec fn is_default(self) -> bool {
        &&& self.spec_num_tries().spec_get() == 3
        &&& self.spec_cache_level() == CacheLevel::Normal
        &&& self.spec_tail_mode() == TailMode::Text
        &&& self.spec_node_order() == NodeOrder::Weight
    }

    pub open spec fn valid(self) -> bool {
        self.spec_num_tries().valid()
    }

    pub fn new() -> (r: Config)
        ensures
            r.is_default(),
            r.valid(),
    {
        Config {
            num_tries_: Default::default(),
            cache_level_: Default::default(),
            tail_mode_: Default::default(),
            node_order_: Default::default(),
        }
    }

    /// Decodes a 20-bit flags word. A zero field selects that field's
    /// default; a set reserved bit or an undefined field pattern is
    /// rejected with a configuration error.
    pub fn parse(config_flags: u32) -> (r: Result<Config, Error>)
        ensures
            r is Ok <==> spec_flags_valid(config_flags),
            r matches Ok(c) ==> {
                &&& c.valid()
                &&& c.spec_num_tries().spec_get() == (if config_flags & NUM_TRIES_MASK == 0 {
                    3u32
                } else {
                    config_flags & NUM_TRIES_MASK
                })
                &&& c.spec_cache_level().spec_bits() == (if config_flags & CACHE_LEVEL_MASK == 0 {
                    0x00200u32
                } else {
                    config_flags & CACHE_LEVEL_MASK
                })
                &&& c.spec_tail_mode().spec_bits() == (if config_flags & TAIL_MODE_MASK == 0 {
                    0x01000u32
                } else {
                    config_flags & TAIL_MODE_MASK
                })
                &&& c.spec_node_order().spec_bits() == (if config_flags & NODE_ORDER_MASK == 0 {
                    0x20000u32
                } else {
                    config_flags & NODE_ORDER_MASK
                })
            },
    {
        if config_flags & !CONFIG_MASK != 0 {
            return Err(Error::Config);
        }
        let mut out = Config::new();
        out.parse_num_tries(config_flags);
        match out.parse_cache_level(config_flags) {
            Ok(()) => {},
            Err(e) => {
                return Err(e);
            },
        }
        match out.parse_tail_mode(config_flags) {
            Ok(()) => {},
            Err(e) => {
                return Err(e);
            },
        }
        match out.parse_node_order(config_flags) {
            Ok(()) => {},
            Err(e) => {
                return Err(e);
            },
        }
        proof {
            assert(config_flags & NUM_TRIES_MASK <= 0x7F) by (bit_vector);
        }
        Ok(out)
    }

    /// Re-encodes the settings as a flags word, every field in its bit
    /// range, so that parsing the word reproduces the configuration.
    pub fn flags(&self) -> (r: u32)
        ensures
            r == self.spec_num_tries().spec_get() | self.spec_cache_level().spec_bits()
                | self.spec_tail_mode().spec_bits() | self.spec_node_order().spec_bits(),
    {
        self.num_tries_.get() | self.cache_level_.bits() | self.tail_mode_.bits()
            | self.node_order_.bits()
    }

    pub fn with_num_tries(self, num_tries: NumTries) -> (r: Config)
        ensures
            r.spec_num_tries() == num_tries,
            r.spec_cache_level() == self.spec_cache_level(),
            r.spec_tail_mode() == self.spec_tail_mode(),
            r.spec_node_order() == self.spec_node_order(),
    {
        let mut out = self;
        out.set_num_tries(num_tries);
        out
    }

    pub fn with_cache_level(self, cache_level: CacheLevel) -> (r: Config)
        ensures
            r.spec_cache_level() == cache_level,
            r.spec_num_tries() == self.spec_num_tries(),
            r.spec_tail_mode() == self.spec_tail_mode(),
            r.spec_node_order() == self.spec_node_order(),
    {
        let mut out = self;
        out.set_cache_level(cache_level);
        out
    }

    pub fn with_tail_mode(self, tail_mode: TailMode) -> (r: Config)
        ensures
            r.spec_tail_mode() == tail_mode,
            r.spec_num_tries() == self.spec_num_tries(),
            r.spec_cache_level() == self.spec_cache_level(),
            r.spec_node_order() == self.spec_node_order(),
    {
        let mut out = self;
        out.set_tail_mode(tail_mode);
        out
    }

    pub fn with_node_order(self, node_order: NodeOrder) -> (r: Config)
        ensures
            r.spec_node_order() == node_order,
            r.spec_num_tries() == self.spec_num_tries(),
            r.spec_cache_level() == self.spec_cache_level(),
            r.spec_tail_mode() == self.spec_tail_mode(),
    {
        let mut out = self;
        out.set_node_order(node_order);
        out
    }

    pub fn set_num_tries(&mut self, num_tries: NumTries)
        ensures
            final(self).spec_num_tries() == num_tries,
            final(self).spec_cache_level() == old(self).spec_cache_level(),
            final(self).spec_tail_mode() == old(self).spec_tail_mode(),
            final(self).spec_node_order() == old(self).spec_node_order(),
    {
        self.num_tries_ = num_tries;
    }

    pub fn set_cache_level(&mut self, cache_level: CacheLevel)
        ensures
            final(self).spec_cache_level() == cache_level,
            final(self).spec_num_tries() == old(self).spec_num_tries(),
            final(self).spec_tail_mode() == old(self).spec_tail_mode(),
            final(self).spec_node_order() == old(self).spec_node_order(),
    {
        self.cache_level_ = cache_level;
    }

    pub fn set_tail_mode(&mut self, tail_mode: TailMode)
        ensures
            final(self).spec_tail_mode() == tail_mode,
            final(self).spec_num_tries() == old(self).spec_num_tries(),
            final(self).spec_cache_level() == old(self).spec_cache_level(),
            final(self).spec_node_order() == old(self).spec_node_order(),
    {
        self.tail_mode_ = tail_mode;
    }

    pub fn set_node_order(&mut self, node_order: NodeOrder)
        ensures
            final(self).spec_node_order() == node_order,
            final(self).spec_num_tries() == old(self).spec_num_tries(),
            final(self).spec_cache_level() == old(self).spec_cache_level(),
            final(self).spec_tail_mode() == old(self).spec_tail_mode(),
    {
        self.node_order_ = node_order;
    }

    pub fn num_tries(&self) -> (r: NumTries)
        ensures
            r == self.spec_num_tries(),
    {
        self.num_tries_
    }

    pub fn cache_level(&self) -> (r: CacheLevel)
        ensures
            r == self.spec_cache_level(),
    {
        self.cache_level_
    }

    pub fn tail_mode(&self) -> (r: TailMode)
        ensures
            r == self.spec_tail_mode(),
    {
        self.tail_mode_
    }

    pub fn node_order(&self) -> (r: NodeOrder)
        ensures
            r == self.spec_node_order(),
    {
        self.node_order_
    }

    pub fn clear(&mut self)
        ensures
            final(self).is_default(),
    {
        *self = Config::new();
    }

    fn parse_num_tries(&mut self, config_flags: u32)
        ensures
            *final(self) == (Config {
                num_tries_: final(self).num_tries_,
                ..*old(self)
            }),
            final(self).num_tries_.spec_get() == (if config_flags & NUM_TRIES_MASK == 0 {
                old(self).num_tries_.spec_get()
            } else {
                config_flags & NUM_TRIES_MASK
            }),
    {
        let num_tries: u32 = config_flags & NUM_TRIES_MASK;
        if num_tries != 0 {
            proof {
                assert(config_flags & 0x0007Fu32 <= 0x7F) by (bit_vector);
            }
            self.num_tries_ = NumTries::new(num_tries);
        }
    }

    fn parse_cache_level(&mut self, config_flags: u32) -> (r: Result<(), Error>)
        ensures
            r is Ok <==> {
                ||| config_flags & CACHE_LEVEL_MASK == 0
                ||| config_flags & CACHE_LEVEL_MASK == 0x00080
                ||| config_flags & CACHE_LEVEL_MASK == 0x00100
                ||| config_flags & CACHE_LEVEL_MASK == 0x00200
                ||| config_flags & CACHE_LEVEL_MASK == 0x00400
                ||| config_flags & CACHE_LEVEL_MASK == 0x00800
            },
            r is Ok ==> *final(self) == (Config {
                cache_level_: final(self).cache_level_,
                ..*old(self)
            }),
            r is Ok ==> final(self).cache_level_.spec_bits() == (if config_flags & CACHE_LEVEL_MASK
                == 0 {
                0x00200u32
            } else {
                config_flags & CACHE_LEVEL_MASK
            }),
            r is Err ==> self == old(self),
    {
        let field: u32 = config_flags & CACHE_LEVEL_MASK;
        if field == 0 {
            self.cache_level_ = Default::default();
        } else if field == 0x00080 {
            self.cache_level_ = CacheLevel::Huge;
        } else if field == 0x00100 {
            self.cache_level_ = CacheLevel::Large;
        } else if field == 0x00200 {
            self.cache_level_ = CacheLevel::Normal;
        } else if field == 0x00400 {
            self.cache_level_ = CacheLevel::Small;
        } else if field == 0x00800 {
            self.cache_level_ = CacheLevel::Tiny;
        } else {
            return Err(Error::Config);
        }
        Ok(())
    }

    fn parse_tail_mode(&mut self, config_flags: u32) -> (r: Result<(), Error>)
        ensures
            r is Ok <==> {
                ||| config_flags & TAIL_MODE_MASK == 0
                ||| config_flags & TAIL_MODE_MASK == 0x01000
                ||| config_flags & TAIL_MODE_MASK == 0x02000
            },
            r is Ok ==> *final(self) == (Config {
                tail_mode_: final(self).tail_mode_,
                ..*old(self)
            }),
            r is Ok ==> final(self).tail_mode_.spec_bits() == (if config_flags & TAIL_MODE_MASK
                == 0 {
                0x01000u32
            } else {
                config_flags & TAIL_MODE_MASK
            }),
            r is Err ==> self == old(self),
    {
        let field: u32 = config_flags & TAIL_MODE_MASK;
        if field == 0 {
            self.tail_mode_ = Default::default();
        } else if field == 0x01000 {
            self.tail_mode_ = TailMode::Text;
        } else if field == 0x02000 {
            self.tail_mode_ = TailMode::Binary;
        } else {
            return Err(Error::Config);
        }
        Ok(())
    }

    fn parse_node_order(&mut self, config_flags: u32) -> (r: Result<(), Error>)
        ensures
            r is Ok <==> {
                ||| config_flags & NODE_ORDER_MASK == 0
                ||| config_flags & NODE_ORDER_MASK == 0x10000
                ||| config_flags & NODE_ORDER_MASK == 0x20000
            },
            r is Ok ==> *final(self) == (Config {
                node_order_: final(self).node_order_,
                ..*old(self)
            }),
            r is Ok ==> final(self).node_order_.spec_bits() == (if config_flags & NODE_ORDER_MASK
                == 0 {
                0x20000u32
            } else {
                config_flags & NODE_ORDER_MASK
            }),
            r is Err ==> self == old(self),
    {
        let field: u32 = config_flags & NODE_ORDER_MASK;
        if field == 0 {
            self.node_order_ = Default::default();
        } else if field == 0x10000 {
            self.node_order_ = NodeOrder::Label;
        } else if field == 0x20000 {
            self.node_order_ = NodeOrder::Weight;
        } else {
            return Err(Error::Config);
        }
        Ok(())
    }
}

} // verus!
