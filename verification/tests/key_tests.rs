use marisa::entry::{rev_lex_less, Entry};
use marisa::key::{Key, ReverseKey, Union};

#[test]
fn union_slot() {
    let mut u = Union::new();
    assert_eq!(u.get_terminal(), 0);
    u.set_terminal(77);
    assert_eq!(u.get_terminal(), 77);
    u.set_weight(123456);
    assert_eq!(u.get_weight(), 123456);
}

#[test]
fn key_forward_indexing() {
    let mut k = Key::new(b"abcdef".to_vec());
    assert_eq!(k.len(), 6);
    assert_eq!(k.at(0), b'a');
    assert_eq!(k.at(5), b'f');
    k.subslice(2, 3);
    assert_eq!(k.get_slice().as_slice(), b"cde");
    k.set_id(9);
    assert_eq!(k.get_id(), 9);
    let w = k.with_weight(5);
    assert_eq!(w.get_weight(), 5);
    assert_eq!(w.get_slice().as_slice(), b"cde");
}

#[test]
fn reverse_key_indexing() {
    let mut k = ReverseKey::new(b"abcdef".to_vec());
    assert_eq!(k.len(), 6);
    assert_eq!(k.at(0), b'f');
    assert_eq!(k.at(5), b'a');
    // two bytes, starting one from the tail end: "de"
    k.subslice(1, 2);
    assert_eq!(k.get_slice().as_slice(), b"de");
}

#[test]
fn entry_common_count_and_order() {
    let a = Entry::new(b"hello".to_vec());
    let b = Entry::new(b"lo".to_vec());
    let c = Entry::new(b"x".to_vec());
    // common suffix of "hello" and "lo" is "lo"
    assert_eq!(a.common_count(&b), 2);
    assert_eq!(b.common_count(&a), 2);
    assert_eq!(a.common_count(&c), 0);
    // suffix order: "lo" sorts before its extension "hello"
    assert!(rev_lex_less(&b, &a));
    assert!(!rev_lex_less(&a, &b));
    assert!(!rev_lex_less(&a, &a));
}
