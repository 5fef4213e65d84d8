use marisa::config::{CacheLevel, Config, NodeOrder, NumTries, TailMode};

#[test]
fn defaults() {
    let c = Config::new();
    assert_eq!(c.num_tries().get(), 3);
    assert!(matches!(c.cache_level(), CacheLevel::Normal));
    assert!(matches!(c.tail_mode(), TailMode::Text));
    assert!(matches!(c.node_order(), NodeOrder::Weight));
}

#[test]
fn parse_zero_gives_defaults() {
    let c = Config::parse(0).unwrap();
    assert_eq!(c.num_tries().get(), 3);
    assert!(matches!(c.cache_level(), CacheLevel::Normal));
    assert!(matches!(c.tail_mode(), TailMode::Text));
    assert!(matches!(c.node_order(), NodeOrder::Weight));
}

#[test]
fn parse_fields() {
    let c = Config::parse(5 | 0x00080 | 0x02000 | 0x10000).unwrap();
    assert_eq!(c.num_tries().get(), 5);
    assert!(matches!(c.cache_level(), CacheLevel::Huge));
    assert!(matches!(c.tail_mode(), TailMode::Binary));
    assert!(matches!(c.node_order(), NodeOrder::Label));
}

#[test]
fn parse_rejects_reserved_bits() {
    assert!(Config::parse(0x100000).is_err());
    assert!(Config::parse(0xFFFFFFFF).is_err());
}

#[test]
fn parse_rejects_undefined_fields() {
    // two cache-level bits at once
    assert!(Config::parse(0x00180).is_err());
    // two tail-mode bits at once
    assert!(Config::parse(0x03000).is_err());
    // two node-order bits at once
    assert!(Config::parse(0x30000).is_err());
}

#[test]
fn flags_round_trip() {
    let c = Config::new()
        .with_num_tries(NumTries::new(7))
        .with_cache_level(CacheLevel::Huge)
        .with_tail_mode(TailMode::Binary)
        .with_node_order(NodeOrder::Label);
    let f = c.flags();
    assert_eq!(f, 7 | 0x00080 | 0x02000 | 0x10000);
    let c2 = Config::parse(f).unwrap();
    assert_eq!(c2.num_tries().get(), 7);
    assert!(matches!(c2.cache_level(), CacheLevel::Huge));
    assert!(matches!(c2.tail_mode(), TailMode::Binary));
    assert!(matches!(c2.node_order(), NodeOrder::Label));
    // the defaults re-encode to their own bit patterns
    assert_eq!(Config::new().flags(), 3 | 0x00200 | 0x01000 | 0x20000);
}

#[test]
fn setters_and_clear() {
    let mut c = Config::new();
    c.set_num_tries(NumTries::new(1));
    c.set_cache_level(CacheLevel::Tiny);
    c.set_tail_mode(TailMode::Binary);
    c.set_node_order(NodeOrder::Label);
    assert_eq!(c.num_tries().get(), 1);
    assert!(matches!(c.cache_level(), CacheLevel::Tiny));
    c.clear();
    assert_eq!(c.num_tries().get(), 3);
    assert!(matches!(c.cache_level(), CacheLevel::Normal));
}
