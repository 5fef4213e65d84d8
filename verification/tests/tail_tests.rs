use marisa::config::TailMode;
use marisa::entry::Entry;
use marisa::tail::Tail;

fn restore_vec(t: &Tail, off: u32) -> Vec<u8> {
    let mut out = Vec::new();
    t.restore(off as usize, &mut out);
    out
}

#[test]
fn text_build_and_restore() {
    let entries = vec![
        Entry::new(b"hello".to_vec()),
        Entry::new(b"world".to_vec()),
        Entry::new(b"lo".to_vec()),
    ];
    let mut offsets = Vec::new();
    let t = Tail::build(&entries, &mut offsets, TailMode::Text);
    assert!(matches!(t.mode(), TailMode::Text));
    assert_eq!(offsets.len(), 3);
    assert_eq!(restore_vec(&t, offsets[0]), b"hello".to_vec());
    assert_eq!(restore_vec(&t, offsets[1]), b"world".to_vec());
    assert_eq!(restore_vec(&t, offsets[2]), b"lo".to_vec());
    // "lo" is a suffix of "hello" and shares its storage
    assert_eq!(offsets[2], offsets[0] + 3);
}

#[test]
fn binary_build_and_restore() {
    let entries = vec![
        Entry::new(b"abc".to_vec()),
        Entry::new(b"c".to_vec()),
        Entry::new(b"zz".to_vec()),
    ];
    let mut offsets = Vec::new();
    let t = Tail::build(&entries, &mut offsets, TailMode::Binary);
    assert!(matches!(t.mode(), TailMode::Binary));
    assert_eq!(restore_vec(&t, offsets[0]), b"abc".to_vec());
    assert_eq!(restore_vec(&t, offsets[1]), b"c".to_vec());
    assert_eq!(restore_vec(&t, offsets[2]), b"zz".to_vec());
    assert_eq!(offsets[1], offsets[0] + 2);
}

#[test]
fn text_downgrades_on_zero_byte() {
    let entries = vec![Entry::new(vec![1, 0, 2]), Entry::new(vec![3, 4])];
    let mut offsets = Vec::new();
    let t = Tail::build(&entries, &mut offsets, TailMode::Text);
    // a zero byte forces binary mode
    assert!(matches!(t.mode(), TailMode::Binary));
    assert_eq!(restore_vec(&t, offsets[0]), vec![1, 0, 2]);
    assert_eq!(restore_vec(&t, offsets[1]), vec![3, 4]);
}

#[test]
fn restore_idempotent_every_offset() {
    let words: Vec<&[u8]> = vec![b"independent", b"dent", b"pendent", b"dew", b"went"];
    let entries: Vec<Entry> = words.iter().map(|w| Entry::new(w.to_vec())).collect();
    let mut offsets = Vec::new();
    let t = Tail::build(&entries, &mut offsets, TailMode::Text);
    for (i, w) in words.iter().enumerate() {
        assert_eq!(restore_vec(&t, offsets[i]), w.to_vec());
        // a second read returns the same bytes
        assert_eq!(restore_vec(&t, offsets[i]), w.to_vec());
    }
}

#[test]
fn build_deterministic() {
    let mk = || {
        vec![
            Entry::new(b"alpha".to_vec()),
            Entry::new(b"beta".to_vec()),
            Entry::new(b"ha".to_vec()),
        ]
    };
    let mut o1 = Vec::new();
    let mut o2 = Vec::new();
    let t1 = Tail::build(&mk(), &mut o1, TailMode::Text);
    let t2 = Tail::build(&mk(), &mut o2, TailMode::Text);
    assert_eq!(o1, o2);
    assert_eq!(t1.len(), t2.len());
    assert_eq!(t1.io_size(), t2.io_size());
}

#[test]
fn empty_tail() {
    let entries: Vec<Entry> = Vec::new();
    let mut offsets = Vec::new();
    let t = Tail::build(&entries, &mut offsets, TailMode::Text);
    assert!(t.is_empty());
    assert_eq!(t.len(), 0);
    assert_eq!(offsets.len(), 0);
    assert!(matches!(t.mode(), TailMode::Text));
}
