use vstd::prelude::*;

verus! {

/// Count trailing zeros, written as a portable cascade of masked tests
/// rather than a hardware intrinsic.
///
/// The result is pinned down through `to_bits`: a zero input yields the
/// full reported width, and otherwise the result is the index of the
/// lowest set bit. The narrow types widen to 32 bits first, so their
/// reported width is 32, and `usize` widens to 64 bits.
pub trait Ctz: Sized {
    spec fn width() -> u32;

    spec fn to_bits(self) -> u64;

    fn ctz(self) -> (r: u32)
        ensures
            self.to_bits() == 0 ==> r == Self::width(),
            self.to_bits() != 0 ==> r < Self::width(),
            self.to_bits() != 0 ==> (self.to_bits() >> (r as u64)) & 1u64 == 1u64,
            self.to_bits() != 0 ==> self.to_bits() & !(0xFFFFFFFFFFFFFFFFu64 << (r as u64)) == 0,
    ;
}

impl Ctz for u8 {
    open spec fn width() -> u32 {
        32
    }

    open spec fn to_bits(self) -> u64 {
        self as u64
    }

    fn ctz(self) -> (r: u32) {
        (self as u32).ctz()
    }
}

impl Ctz for u16 {
    open spec fn width() -> u32 {
        32
    }

    open spec fn to_bits(self) -> u64 {
        self as u64
    }

    fn ctz(self) -> (r: u32) {
        (self as u32).ctz()
    }
}

impl Ctz for u32 {
    open spec fn width() -> u32 {
        32
    }

    open spec fn to_bits(self) -> u64 {
        self as u64
    }

    #[verifier::rlimit(100)]
    fn ctz(self) -> (r: u32) {
        let v = self;
        proof {
            assert(v != 0 ==> !v < 0xFFFFFFFFu32) by (bit_vector);
        }
        let low: u32 = if v == 0 {
            0
        } else {
            v & (!v + 1)
        };
        let c: u32 = 32 - (if low != 0 {
            1u32
        } else {
            0u32
        }) - (if low & 0x0000FFFF != 0 {
            16u32
        } else {
            0u32
        }) - (if low & 0x00FF00FF != 0 {
            8u32
        } else {
            0u32
        }) - (if low & 0x0F0F0F0F != 0 {
            4u32
        } else {
            0u32
        }) - (if low & 0x33333333 != 0 {
            2u32
        } else {
            0u32
        }) - (if low & 0x55555555 != 0 {
            1u32
        } else {
            0u32
        });
        proof {
            assert((v == 0 ==> c == 32) && (v != 0 ==> c < 32 && ((v as u64) >> (c as u64)) & 1u64
                == 1u64 && (v as u64) & !(0xFFFFFFFFFFFFFFFFu64 << (c as u64)) == 0)) by (bit_vector)
                requires
                    low == (if v == 0 {
                        0u32
                    } else {
                        v & ((!v + 1) as u32)
                    }),
                    c == 32 - (if low != 0 {
                        1u32
                    } else {
                        0u32
                    }) - (if low & 0x0000FFFF != 0 {
                        16u32
                    } else {
                        0u32
                    }) - (if low & 0x00FF00FF != 0 {
                        8u32
                    } else {
                        0u32
                    }) - (if low & 0x0F0F0F0F != 0 {
                        4u32
                    } else {
                        0u32
                    }) - (if low & 0x33333333 != 0 {
                        2u32
                    } else {
                        0u32
                    }) - (if low & 0x55555555 != 0 {
                        1u32
                    } else {
                        0u32
                    }),
            ;
        }
        c
    }
}

impl Ctz for u64 {
    open spec fn width() -> u32 {
        64
    }

    open spec fn to_bits(self) -> u64 {
        self
    }

    #[verifier::rlimit(100)]
    fn ctz(self) -> (r: u32) {
        let v = self;
        proof {
            assert(v != 0 ==> !v < 0xFFFFFFFFFFFFFFFFu64) by (bit_vector);
        }
        let low: u64 = if v == 0 {
            0
        } else {
            v & (!v + 1)
        };
        let c: u32 = 64 - (if low != 0 {
            1u32
        } else {
            0u32
        }) - (if low & 0x00000000FFFFFFFF != 0 {
            32u32
        } else {
            0u32
        }) - (if low & 0x0000FFFF0000FFFF != 0 {
            16u32
        } else {
            0u32
        }) - (if low & 0x00FF00FF00FF00FF != 0 {
            8u32
        } else {
            0u32
        }) - (if low & 0x0F0F0F0F0F0F0F0F != 0 {
            4u32
        } else {
            0u32
        }) - (if low & 0x3333333333333333 != 0 {
            2u32
        } else {
            0u32
        }) - (if low & 0x5555555555555555 != 0 {
            1u32
        } else {
            0u32
        });
        proof {
            assert((v == 0 ==> c == 64) && (v != 0 ==> c < 64 && (v >> (c as u64)) & 1u64 == 1u64
                && v & !(0xFFFFFFFFFFFFFFFFu64 << (c as u64)) == 0)) by (bit_vector)
                requires
                    low == (if v == 0 {
                        0u64
                    } else {
                        v & ((!v + 1) as u64)
                    }),
                    c == 64 - (if low != 0 {
                        1u32
                    } else {
                        0u32
                    }) - (if low & 0x00000000FFFFFFFF != 0 {
                        32u32
                    } else {
                        0u32
                    }) - (if low & 0x0000FFFF0000FFFF != 0 {
                        16u32
                    } else {
                        0u32
                    }) - (if low & 0x00FF00FF00FF00FF != 0 {
                        8u32
                    } else {
                        0u32
                    }) - (if low & 0x0F0F0F0F0F0F0F0F != 0 {
                        4u32
                    } else {
                        0u32
                    }) - (if low & 0x3333333333333333 != 0 {
                        2u32
                    } else {
                        0u32
                    }) - (if low & 0x5555555555555555 != 0 {
                        1u32
                    } else {
                        0u32
                    }),
            ;
        }
        c
    }
}

impl Ctz for usize {
    open spec fn width() -> u32 {
        64
    }

    open spec fn to_bits(self) -> u64 {
        self as u64
    }

    fn ctz(self) -> (r: u32) {
        (self as u64).ctz()
    }
}

} // verus!
