use hyphenation_trie::builder::{build, key_bytes, lex_compare, line_to_entry};
use hyphenation_trie::codec::{encode, pack, BuildError, EntryKind};
use hyphenation_trie::store::{compile, prefix_values, Error, Trie};

fn chars(s: &str) -> Vec<char> {
    s.chars().collect()
}

fn lines(ls: &[&str]) -> Vec<Vec<char>> {
    ls.iter().map(|s| chars(s)).collect()
}

fn packed_of(kind: EntryKind, line: &str) -> u64 {
    let p = encode(kind, &chars(line)).unwrap();
    pack(&p.scores).unwrap()
}

#[test]
fn lex_compare_orders_bytes() {
    assert_eq!(lex_compare(&b"ab".to_vec(), &b"b".to_vec()), -1);
    assert_eq!(lex_compare(&b"ab".to_vec(), &b"ab".to_vec()), 0);
    assert_eq!(lex_compare(&b"ab".to_vec(), &b"aab".to_vec()), 1);
    assert_eq!(lex_compare(&b"a".to_vec(), &b"ab".to_vec()), -1);
}

#[test]
fn key_bytes_is_utf8() {
    assert_eq!(key_bytes(&chars("ch")), b"ch".to_vec());
    assert_eq!(key_bytes(&chars("héla")), "héla".as_bytes().to_vec());
}

#[test]
fn line_to_entry_packs_key_and_scores() {
    let (key, value) = line_to_entry(EntryKind::Pattern, &chars("1c2h")).unwrap();
    assert_eq!(key, b"ch".to_vec());
    assert_eq!(value, pack(&vec![1, 2, 0]).unwrap());
}

#[test]
fn build_sorted_strictly_increasing() {
    let out = build(EntryKind::Pattern, &lines(&["2t1", "ba2", "ab1", "ba2"])).unwrap();
    let keys: Vec<Vec<u8>> = out.iter().map(|p| p.0.clone()).collect();
    assert_eq!(keys, vec![b"ab".to_vec(), b"ba".to_vec(), b"t".to_vec()]);
    for w in keys.windows(2) {
        assert_eq!(lex_compare(&w[0], &w[1]), -1);
    }
}

#[test]
fn build_reports_collisions() {
    // both lines have key "ab" but different score vectors
    let r = build(EntryKind::Pattern, &lines(&["ab1", "a2b1"]));
    assert_eq!(r.unwrap_err(), BuildError::KeyCollision);
}

#[test]
fn build_rejects_malformed_lines() {
    let r = build(EntryKind::Pattern, &lines(&["ok1", "a12b"]));
    assert_eq!(r.unwrap_err(), BuildError::AdjacentMarks);
    let long = "a1".repeat(17);
    let r2 = build(EntryKind::Pattern, &lines(&[&long]));
    assert_eq!(r2.unwrap_err(), BuildError::TooManyScores);
}

#[test]
fn trie_exact_lookup() {
    let t = compile(EntryKind::Pattern, &lines(&["1c2h", "2t1"])).unwrap();
    assert_eq!(t.get(b"ch"), Some(packed_of(EntryKind::Pattern, "1c2h")));
    assert_eq!(t.get(b"t"), Some(packed_of(EntryKind::Pattern, "2t1")));
    assert_eq!(t.get(b"c"), None);
    assert_eq!(t.get(b"chx"), None);
    assert_eq!(t.get(b""), None);
}

#[test]
fn trie_from_sorted_pairs() {
    let pairs = build(EntryKind::Pattern, &lines(&["ab1", "ba2"])).unwrap();
    let t = Trie::from_iter(pairs).unwrap();
    assert_eq!(t.get(b"ab"), Some(packed_of(EntryKind::Pattern, "ab1")));
    assert_eq!(t.get(b"ba"), Some(packed_of(EntryKind::Pattern, "ba2")));
}

#[test]
fn serialization_roundtrip() {
    let t = compile(EntryKind::Pattern, &lines(&["1c2h", "2t1", "ab2c"])).unwrap();
    let bytes = t.as_bytes().to_vec();
    let u = Trie::from_bytes(bytes).unwrap();
    for key in [&b"ch"[..], b"t", b"abc", b"zz", b"", b"ab"] {
        assert_eq!(t.get(key), u.get(key));
    }
    let v = t.roundtrip();
    assert_eq!(v.get(b"ch"), t.get(b"ch"));
}

#[test]
fn from_bytes_rejects_garbage() {
    let r = Trie::from_bytes(vec![1, 2, 3, 4]);
    match r {
        Err(Error::Fst(_)) => {},
        _ => panic!("a corrupt buffer must be rejected with the library's error"),
    }
}

#[test]
fn prefix_query_scenario() {
    // an automaton holding "ch", "techno", "nology": of these only
    // "techno" is a prefix of "technology"
    let t = compile(EntryKind::Pattern, &lines(&["ch", "techno", "nology"])).unwrap();
    let got = prefix_values(&t, b"technology");
    assert_eq!(got, vec![packed_of(EntryKind::Pattern, "techno")]);
}

#[test]
fn prefix_query_increasing_length() {
    let t = compile(EntryKind::Pattern, &lines(&["t", "te", "tech", "techx"])).unwrap();
    let got = prefix_values(&t, b"technology");
    assert_eq!(
        got,
        vec![
            packed_of(EntryKind::Pattern, "t"),
            packed_of(EntryKind::Pattern, "te"),
            packed_of(EntryKind::Pattern, "tech"),
        ]
    );
}

#[test]
fn prefix_query_cursor_yields_in_order() {
    let t = compile(EntryKind::Pattern, &lines(&["t", "te"])).unwrap();
    let mut pm = t.get_prefixes(b"tea");
    assert_eq!(pm.next(), Some(packed_of(EntryKind::Pattern, "t")));
    assert_eq!(pm.next(), Some(packed_of(EntryKind::Pattern, "te")));
    assert_eq!(pm.next(), None);
    assert_eq!(pm.next(), None);
}

#[test]
fn prefix_query_empty_results() {
    let t = compile(EntryKind::Pattern, &lines(&["techno"])).unwrap();
    assert_eq!(prefix_values(&t, b"tech"), Vec::<u64>::new());
    assert_eq!(prefix_values(&t, b""), Vec::<u64>::new());
    assert_eq!(prefix_values(&t, b"xylo"), Vec::<u64>::new());
}

#[test]
fn prefix_query_empty_key_first() {
    // a line with no letters yields the empty key, which is a prefix
    // of every word and must be reported before any other match
    let t = compile(EntryKind::Pattern, &lines(&["", "te"])).unwrap();
    let mut pm = t.get_prefixes(b"tea");
    assert_eq!(pm.next(), Some(packed_of(EntryKind::Pattern, "")));
    assert_eq!(pm.next(), Some(packed_of(EntryKind::Pattern, "te")));
    assert_eq!(pm.next(), None);
    assert_eq!(
        prefix_values(&t, b"tea"),
        vec![
            packed_of(EntryKind::Pattern, ""),
            packed_of(EntryKind::Pattern, "te"),
        ]
    );
    assert_eq!(t.get(b""), Some(packed_of(EntryKind::Pattern, "")));
}

#[test]
fn from_iter_rejects_unsorted_keys() {
    let r = Trie::from_iter(vec![(b"b".to_vec(), 1), (b"a".to_vec(), 2)]);
    match r {
        Err(Error::Fst(_)) => {},
        _ => panic!("out-of-order keys must be rejected with the library's error"),
    }
    let r2 = Trie::from_iter(vec![(b"a".to_vec(), 1), (b"a".to_vec(), 2)]);
    match r2 {
        Err(Error::Fst(_)) => {},
        _ => panic!("duplicate keys must be rejected with the library's error"),
    }
}

#[test]
fn prefix_query_whole_word_match() {
    let t = compile(EntryKind::Pattern, &lines(&["techno"])).unwrap();
    assert_eq!(
        prefix_values(&t, b"techno"),
        vec![packed_of(EntryKind::Pattern, "techno")]
    );
}

#[test]
fn prefix_query_multibyte_keys() {
    // "é" spans two bytes, so the traversal crosses a key character
    // in two steps
    let t = compile(EntryKind::Pattern, &lines(&["é1t", "e2s"])).unwrap();
    let word = "était".as_bytes();
    assert_eq!(
        prefix_values(&t, word),
        vec![packed_of(EntryKind::Pattern, "é1t")]
    );
    assert_eq!(t.get("ét".as_bytes()), Some(packed_of(EntryKind::Pattern, "é1t")));
    assert_eq!(t.get("es".as_bytes()), Some(packed_of(EntryKind::Pattern, "e2s")));
}

#[test]
fn default_trie_is_empty() {
    let t = Trie::default();
    assert_eq!(t.get(b""), None);
    assert_eq!(t.get(b"a"), None);
    assert_eq!(prefix_values(&t, b"anything"), Vec::<u64>::new());
}

#[test]
fn compile_propagates_build_errors() {
    let r = compile(EntryKind::Pattern, &lines(&["ab1", "a2b1"]));
    assert_eq!(r.unwrap_err(), BuildError::KeyCollision);
}
