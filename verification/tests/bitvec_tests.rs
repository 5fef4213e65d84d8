use marisa::bit_vec::BitVec;

fn from_bits(bits: &[bool]) -> BitVec {
    let mut bv = BitVec::new();
    for &b in bits {
        bv.push(b);
    }
    bv.build();
    bv
}

#[test]
fn rank_select_small() {
    // 1 0 1 1 0 0 1
    let bv = from_bits(&[true, false, true, true, false, false, true]);
    assert_eq!(bv.len(), 7);
    assert_eq!(bv.rank1(0), 0);
    assert_eq!(bv.rank1(1), 1);
    assert_eq!(bv.rank1(4), 3);
    assert_eq!(bv.rank1(7), 4);
    assert_eq!(bv.rank0(7), 3);
    assert_eq!(bv.select1(0), 0);
    assert_eq!(bv.select1(1), 2);
    assert_eq!(bv.select1(2), 3);
    assert_eq!(bv.select1(3), 6);
    assert_eq!(bv.select0(0), 1);
    assert_eq!(bv.select0(1), 4);
    assert_eq!(bv.select0(2), 5);
}

#[test]
fn rank_select_inverse_large() {
    // a pseudo-random pattern crossing several word boundaries
    let mut state: u64 = 0x2545F4914F6CDD1D;
    let mut bits = Vec::new();
    for _ in 0..1000 {
        state = state.wrapping_mul(6364136223846793005).wrapping_add(1442695040888963407);
        bits.push(state & 1 == 1);
    }
    let bv = from_bits(&bits);
    let total_ones = bv.rank1(bv.len());
    let total_zeros = bv.rank0(bv.len());
    assert_eq!(total_ones + total_zeros, 1000);
    // rank1(select1(r)) == r and the selected bit is set
    for r in 0..total_ones {
        let i = bv.select1(r);
        assert!(bv.at(i));
        assert_eq!(bv.rank1(i), r);
    }
    for r in 0..total_zeros {
        let i = bv.select0(r);
        assert!(!bv.at(i));
        assert_eq!(bv.rank0(i), r);
    }
    // rank1 is monotone and steps by zero or one
    for i in 0..1000 {
        let a = bv.rank1(i);
        let b = bv.rank1(i + 1);
        assert!(a <= b && b - a <= 1);
        assert_eq!(b - a == 1, bits[i]);
    }
}

#[test]
fn set_overwrites_bits() {
    let mut bv = marisa::bit_vec::BitVec::new();
    for _ in 0..130 {
        bv.push(false);
    }
    bv.set(0, true);
    bv.set(64, true);
    bv.set(129, true);
    bv.set(64, false);
    bv.build();
    assert!(bv.at(0));
    assert!(!bv.at(64));
    assert!(bv.at(129));
    assert_eq!(bv.rank1(130), 2);
    assert_eq!(bv.select1(0), 0);
    assert_eq!(bv.select1(1), 129);
}

#[test]
fn empty_and_all_ones() {
    let bv = from_bits(&[]);
    assert_eq!(bv.len(), 0);
    assert_eq!(bv.rank1(0), 0);
    let ones = from_bits(&[true; 64]);
    assert_eq!(ones.rank1(64), 64);
    for r in 0..64 {
        assert_eq!(ones.select1(r), r);
    }
}
