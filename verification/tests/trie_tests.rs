use marisa::config::{Config, NodeOrder, NumTries, TailMode};
use marisa::key::Key;
use marisa::trie::Dict;

fn keys_of(words: &[&[u8]]) -> Vec<Key> {
    words.iter().map(|w| Key::new(w.to_vec())).collect()
}

fn build_default(words: &[&[u8]]) -> Dict {
    Dict::build(&keys_of(words), &Config::new()).unwrap()
}

fn lookup(d: &Dict, w: &[u8]) -> Option<u32> {
    d.lookup(&w.to_vec()).unwrap()
}

fn rev_lookup(d: &Dict, id: u32) -> Vec<u8> {
    let mut out = Vec::new();
    d.reverse_lookup(id, &mut out).unwrap();
    out
}

#[test]
fn scenario_hello() {
    let words: Vec<&[u8]> = vec![b"he", b"hello", b"help", b"world"];
    let d = build_default(&words);
    assert_eq!(d.num_keys(), 4);
    let id_hello = lookup(&d, b"hello");
    assert!(id_hello.is_some());
    assert!(id_hello.unwrap() < 4);
    assert_eq!(lookup(&d, b"hel"), None);
    assert_eq!(lookup(&d, b"h"), None);
    assert_eq!(lookup(&d, b"worlds"), None);

    assert!(d.num_tries() >= 1 && d.num_tries() <= 3);
    assert!(d.io_size() > 0);

    let hits = d.common_prefix_search(&b"help".to_vec()).unwrap();
    let id_he = lookup(&d, b"he").unwrap();
    let id_help = lookup(&d, b"help").unwrap();
    assert_eq!(hits, vec![(id_he, 2), (id_help, 4)]);

    let mut found: Vec<Vec<u8>> = d
        .predictive_search(&b"hel".to_vec())
        .unwrap()
        .into_iter()
        .map(|p| p.1)
        .collect();
    found.sort();
    assert_eq!(found, vec![b"hello".to_vec(), b"help".to_vec()]);
}

#[test]
fn round_trip_and_density() {
    let words: Vec<&[u8]> =
        vec![b"he", b"hello", b"help", b"world", b"w", b"xylophone", b"x", b"xx"];
    let d = build_default(&words);
    let n = d.num_keys();
    assert_eq!(n as usize, words.len());
    let mut seen = vec![false; n as usize];
    for w in words.iter() {
        let id = lookup(&d, w).expect("key must be found");
        assert!(id < n);
        assert!(!seen[id as usize], "ids must be distinct");
        seen[id as usize] = true;
        assert_eq!(rev_lookup(&d, id), w.to_vec(), "round trip must restore the key");
    }
    assert!(seen.iter().all(|&b| b), "ids must cover 0..n");
    // every id reconstructs to a member key
    for id in 0..n {
        let k = rev_lookup(&d, id);
        assert!(words.iter().any(|w| w.to_vec() == k));
    }
    // out-of-range reverse lookup is a range error
    let mut out = Vec::new();
    assert!(d.reverse_lookup(n, &mut out).is_err());
}

#[test]
fn scenario_zero_bytes() {
    let words: Vec<&[u8]> = vec![b"a\x00b", b"a\x00c"];
    let keys = keys_of(&words);
    let conf = Config::new().with_tail_mode(TailMode::Text);
    let d = Dict::build(&keys, &conf).unwrap();
    assert!(lookup(&d, b"a\x00b").is_some());
    assert!(lookup(&d, b"a\x00c").is_some());
    assert_eq!(lookup(&d, b"a\x00"), None);
    assert_eq!(rev_lookup(&d, lookup(&d, b"a\x00b").unwrap()), b"a\x00b".to_vec());
}

#[test]
fn zero_byte_inside_linked_suffix() {
    // the zero sits inside a linked suffix, so it reaches the TAIL and
    // forces the silent switch to binary mode
    let words: Vec<&[u8]> = vec![b"aQ\x00bc", b"aR\x00bd"];
    let keys = keys_of(&words);
    let conf = Config::new().with_num_tries(NumTries::new(1)).with_tail_mode(TailMode::Text);
    let d = Dict::build(&keys, &conf).unwrap();
    for w in words.iter() {
        let id = lookup(&d, w).expect("key with zero byte must be found");
        assert_eq!(rev_lookup(&d, id), w.to_vec());
    }
}

#[test]
fn scenario_empty_key() {
    let words: Vec<&[u8]> = vec![b"", b"a"];
    let d = build_default(&words);
    assert_eq!(d.num_keys(), 2);
    let id_empty = lookup(&d, b"").expect("empty key is a member");
    let id_a = lookup(&d, b"a").expect("\"a\" is a member");
    assert!(id_empty < 2 && id_a < 2 && id_empty != id_a);
    assert_eq!(rev_lookup(&d, id_empty), Vec::<u8>::new());
    assert_eq!(rev_lookup(&d, id_a), b"a".to_vec());
    // the empty key terminates at the root, so its id is 0
    assert_eq!(id_empty, 0);
    // it is yielded first, with length 0, by both searches
    let hits = d.common_prefix_search(&b"x".to_vec()).unwrap();
    assert_eq!(hits, vec![(id_empty, 0)]);
    let all = d.predictive_search(&b"".to_vec()).unwrap();
    assert_eq!(all.len(), 2);
    assert_eq!(all[0], (id_empty, Vec::<u8>::new()));
    // the assignment is consistent across builds
    let d2 = build_default(&words);
    assert_eq!(lookup(&d2, b""), Some(id_empty));
    assert_eq!(lookup(&d2, b"a"), Some(id_a));
}

#[test]
fn scenario_single_level() {
    let words: Vec<&[u8]> = vec![b"a", b"aa", b"aaa"];
    let keys = keys_of(&words);
    let conf = Config::new().with_num_tries(NumTries::new(1));
    let d = Dict::build(&keys, &conf).unwrap();
    assert_eq!(d.num_tries(), 1);
    for w in words.iter() {
        let id = lookup(&d, w).unwrap();
        assert_eq!(rev_lookup(&d, id), w.to_vec());
    }
    assert_eq!(lookup(&d, b"aaaa"), None);
}

#[test]
fn scenario_single_key() {
    let d = build_default(&[b"solo"]);
    assert_eq!(d.num_keys(), 1);
    assert_eq!(lookup(&d, b"solo"), Some(0));
    assert_eq!(lookup(&d, b"sol"), None);
    assert_eq!(lookup(&d, b"soloo"), None);
    let hits = d.common_prefix_search(&b"solo".to_vec()).unwrap();
    assert_eq!(hits, vec![(0, 4)]);
    assert_eq!(rev_lookup(&d, 0), b"solo".to_vec());
}

#[test]
fn predictive_search_inside_linked_edge() {
    // the query ends in the middle of a linked suffix
    let words: Vec<&[u8]> = vec![b"abcdefgh", b"abxy"];
    let d = build_default(&words);
    let got: Vec<Vec<u8>> = d
        .predictive_search(&b"abcd".to_vec())
        .unwrap()
        .into_iter()
        .map(|p| p.1)
        .collect();
    assert_eq!(got, vec![b"abcdefgh".to_vec()]);
    let mut both: Vec<Vec<u8>> = d
        .predictive_search(&b"ab".to_vec())
        .unwrap()
        .into_iter()
        .map(|p| p.1)
        .collect();
    both.sort();
    assert_eq!(both, vec![b"abcdefgh".to_vec(), b"abxy".to_vec()]);
    let single = build_default(&[b"solo"]);
    let got: Vec<Vec<u8>> = single
        .predictive_search(&b"so".to_vec())
        .unwrap()
        .into_iter()
        .map(|p| p.1)
        .collect();
    assert_eq!(got, vec![b"solo".to_vec()]);
}

#[test]
fn only_the_empty_key() {
    let d = build_default(&[b""]);
    assert_eq!(d.num_keys(), 1);
    assert_eq!(lookup(&d, b""), Some(0));
    assert_eq!(lookup(&d, b"a"), None);
    assert_eq!(rev_lookup(&d, 0), Vec::<u8>::new());
    // duplicates of the empty key collapse onto the root terminal
    let d2 = build_default(&[b"", b""]);
    assert_eq!(d2.num_keys(), 1);
    assert_eq!(lookup(&d2, b""), Some(0));
}

#[test]
fn empty_dictionary() {
    let d = Dict::build(&Vec::new(), &Config::new()).unwrap();
    assert_eq!(d.num_keys(), 0);
    assert_eq!(d.num_tries(), 1);
    assert_eq!(d.lookup(&b"".to_vec()).unwrap(), None);
    assert_eq!(d.lookup(&b"a".to_vec()).unwrap(), None);
    assert_eq!(d.common_prefix_search(&b"abc".to_vec()).unwrap(), vec![]);
    assert_eq!(d.predictive_search(&b"".to_vec()).unwrap().len(), 0);
    let mut out = Vec::new();
    assert!(d.reverse_lookup(0, &mut out).is_err());
}

#[test]
fn duplicates_collapse() {
    let words: Vec<&[u8]> = vec![b"dup", b"dup", b"other"];
    let d = build_default(&words);
    assert_eq!(d.num_keys(), 2);
    assert!(lookup(&d, b"dup").is_some());
    assert!(lookup(&d, b"other").is_some());
}

#[test]
fn prefix_search_exact_set() {
    let words: Vec<&[u8]> = vec![b"a", b"ab", b"abc", b"abcd", b"b", b"abx"];
    let d = build_default(&words);
    let hits = d.common_prefix_search(&b"abcz".to_vec()).unwrap();
    // exactly the members that are prefixes of "abcz", by length
    let expect: Vec<(u32, u32)> = vec![
        (lookup(&d, b"a").unwrap(), 1),
        (lookup(&d, b"ab").unwrap(), 2),
        (lookup(&d, b"abc").unwrap(), 3),
    ];
    assert_eq!(hits, expect);
    assert_eq!(d.common_prefix_search(&b"zzz".to_vec()).unwrap(), vec![]);
}

#[test]
fn predictive_search_exact_set() {
    let words: Vec<&[u8]> = vec![b"car", b"card", b"care", b"cart", b"dog", b"ca"];
    let d = build_default(&words);
    let mut got: Vec<Vec<u8>> = d
        .predictive_search(&b"car".to_vec())
        .unwrap()
        .into_iter()
        .map(|p| p.1)
        .collect();
    got.sort();
    let mut expect =
        vec![b"car".to_vec(), b"card".to_vec(), b"care".to_vec(), b"cart".to_vec()];
    expect.sort();
    assert_eq!(got, expect);
    // ids agree with lookup
    for (id, key) in d.predictive_search(&b"car".to_vec()).unwrap() {
        assert_eq!(lookup(&d, &key), Some(id));
    }
    // empty query enumerates everything
    assert_eq!(d.predictive_search(&b"".to_vec()).unwrap().len(), words.len());
    assert_eq!(d.predictive_search(&b"cartoon".to_vec()).unwrap().len(), 0);
}

#[test]
fn predictive_search_label_order() {
    let words: Vec<&[u8]> = vec![b"bb", b"ba", b"bc", b"b"];
    let keys = keys_of(&words);
    let conf = Config::new().with_node_order(NodeOrder::Label);
    let d = Dict::build(&keys, &conf).unwrap();
    let got: Vec<Vec<u8>> = d
        .predictive_search(&b"b".to_vec())
        .unwrap()
        .into_iter()
        .map(|p| p.1)
        .collect();
    assert_eq!(got, vec![b"b".to_vec(), b"ba".to_vec(), b"bb".to_vec(), b"bc".to_vec()]);
}

fn lcg_keys(count: usize) -> Vec<Vec<u8>> {
    // deterministic pseudo-random keys, lengths 8 to 64
    let mut state: u64 = 0x9E3779B97F4A7C15;
    let mut step = || {
        state = state.wrapping_mul(6364136223846793005).wrapping_add(1442695040888963407);
        (state >> 33) as u32
    };
    let mut keys = Vec::new();
    for _ in 0..count {
        let len = 8 + (step() % 57) as usize;
        let mut k = Vec::with_capacity(len);
        for _ in 0..len {
            k.push((step() % 256) as u8);
        }
        keys.push(k);
    }
    keys
}

#[test]
fn many_random_keys_round_trip() {
    let raw = lcg_keys(300);
    let keys: Vec<Key> = raw.iter().map(|w| Key::new(w.clone())).collect();
    let d = Dict::build(&keys, &Config::new()).unwrap();
    let mut distinct = raw.clone();
    distinct.sort();
    distinct.dedup();
    assert_eq!(d.num_keys() as usize, distinct.len());
    for w in raw.iter() {
        let id = d.lookup(w).unwrap().expect("every inserted key must be found");
        assert_eq!(&rev_lookup(&d, id), w);
    }
    // deterministic build: identical footprint and identical ids
    let d2 = Dict::build(&keys, &Config::new()).unwrap();
    assert_eq!(d.io_size(), d2.io_size());
    for w in raw.iter() {
        assert_eq!(d.lookup(w).unwrap(), d2.lookup(w).unwrap());
    }
}

#[test]
fn cache_transparency() {
    let raw = lcg_keys(120);
    let keys: Vec<Key> = raw.iter().map(|w| Key::new(w.clone())).collect();
    let d = Dict::build(&keys, &Config::new()).unwrap();
    for w in raw.iter() {
        assert_eq!(d.lookup(w).unwrap(), d.lookup_nocache(w).unwrap());
        let mut probe = w.clone();
        probe.push(7);
        assert_eq!(d.lookup(&probe).unwrap(), d.lookup_nocache(&probe).unwrap());
        assert_eq!(
            d.common_prefix_search(w).unwrap(),
            d.common_prefix_search_nocache(w).unwrap()
        );
    }
}

#[test]
fn weights_bias_order_not_membership() {
    let mut keys = Vec::new();
    let mut heavy = Key::new(b"heavy".to_vec());
    heavy.set_weight(1000);
    keys.push(heavy);
    let mut light = Key::new(b"light".to_vec());
    light.set_weight(1);
    keys.push(light);
    let d = Dict::build(&keys, &Config::new()).unwrap();
    assert!(d.lookup(&b"heavy".to_vec()).unwrap().is_some());
    assert!(d.lookup(&b"light".to_vec()).unwrap().is_some());
}

#[test]
fn louds_parent_of_first_child() {
    let words: Vec<&[u8]> = vec![b"he", b"hello", b"help", b"world"];
    let d = build_default(&words);
    // the verified navigation identity, exercised on the live structure
    let n = d.trie_ref().node_count() as u32;
    let mut with_children = 0;
    for v in 0..n {
        match d.trie_ref().parent_of_first_child(v) {
            Ok(Some(p)) => {
                assert_eq!(p, v);
                with_children += 1;
            }
            Ok(None) => {}
            Err(e) => panic!("navigation failed on node {}: {:?}", v, e),
        }
    }
    assert!(with_children > 0);
}
