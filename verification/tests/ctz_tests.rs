use marisa::intrinsic::Ctz;

fn prop(i: usize) -> bool {
    let z = i.ctz() as usize;
    let is_full = z == std::mem::size_of::<usize>() * 8;
    let lo_mask: usize = if is_full { !0 } else { (1 << z) - 1 };
    let hi_mask = !lo_mask;
    let next_bit_ok = if is_full { true } else { ((1 << z) & i) != 0 };
    next_bit_ok && (lo_mask & i == 0) && (hi_mask == 0 || (hi_mask & i != 0))
}

#[test]
fn test_ctz_usize() {
    quickcheck::quickcheck(prop as fn(usize) -> bool);
}

#[test]
fn ctz_known_values() {
    assert_eq!(0u8.ctz(), 32);
    assert_eq!(1u8.ctz(), 0);
    assert_eq!(0u16.ctz(), 32);
    assert_eq!(0x8000u16.ctz(), 15);
    assert_eq!(0u32.ctz(), 32);
    assert_eq!(1u32.ctz(), 0);
    assert_eq!(0x80000000u32.ctz(), 31);
    assert_eq!(12u32.ctz(), 2);
    assert_eq!(0u64.ctz(), 64);
    assert_eq!(0x8000000000000000u64.ctz(), 63);
    assert_eq!(96u64.ctz(), 5);
    assert_eq!(0usize.ctz(), 64);
    assert_eq!(40usize.ctz(), 3);
}
