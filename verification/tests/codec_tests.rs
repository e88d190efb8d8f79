use hyphenation_trie::codec::{classify, encode, pack, unpack, BuildError, EntryKind};

fn chars(s: &str) -> Vec<char> {
    s.chars().collect()
}

#[test]
fn classify_pattern_digits() {
    assert_eq!(classify(EntryKind::Pattern, '0'), Some(0));
    assert_eq!(classify(EntryKind::Pattern, '5'), Some(5));
    assert_eq!(classify(EntryKind::Pattern, '9'), Some(9));
    assert_eq!(classify(EntryKind::Pattern, 'a'), None);
    assert_eq!(classify(EntryKind::Pattern, '-'), None);
}

#[test]
fn classify_exception_hyphen() {
    assert_eq!(classify(EntryKind::Exception, '-'), Some(1));
    assert_eq!(classify(EntryKind::Exception, '1'), None);
    assert_eq!(classify(EntryKind::Exception, 'x'), None);
}

#[test]
fn encode_pattern_scenario() {
    // "1c2h": '1' scores, 'c' clears the skip, '2' scores, 'h' clears,
    // and the trailing gap adds a final zero.
    let p = encode(EntryKind::Pattern, &chars("1c2h")).unwrap();
    assert_eq!(p.key, chars("ch"));
    assert_eq!(p.scores, vec![1, 2, 0]);
}

#[test]
fn encode_exception_scenario() {
    // ".ab-bey.": only '-' carries a score; the key keeps every
    // non-scoring character, the score vector has one entry per gap.
    let p = encode(EntryKind::Exception, &chars(".ab-bey.")).unwrap();
    assert_eq!(p.key, chars(".abbey."));
    assert_eq!(p.scores, vec![0, 0, 0, 1, 0, 0, 0, 0]);
    assert_eq!(p.scores.len(), p.key.len() + 1);
}

#[test]
fn encode_no_letters() {
    let p = encode(EntryKind::Pattern, &chars("")).unwrap();
    assert_eq!(p.key, Vec::<char>::new());
    assert_eq!(p.scores, vec![0]);
    // a trailing explicit score leaves the skip flag set, so no
    // trailing zero is added after it
    let q = encode(EntryKind::Pattern, &chars("3")).unwrap();
    assert_eq!(q.key, Vec::<char>::new());
    assert_eq!(q.scores, vec![3]);
}

#[test]
fn encode_adjacent_marks_rejected() {
    assert_eq!(
        encode(EntryKind::Pattern, &chars("a12b")).unwrap_err(),
        BuildError::AdjacentMarks
    );
    assert_eq!(
        encode(EntryKind::Exception, &chars("a--b")).unwrap_err(),
        BuildError::AdjacentMarks
    );
}

#[test]
fn encode_twice_is_identical() {
    let line = chars("hy3ph2en");
    let a = encode(EntryKind::Pattern, &line).unwrap();
    let b = encode(EntryKind::Pattern, &line).unwrap();
    assert_eq!(a.key, b.key);
    assert_eq!(a.scores, b.scores);
}

#[test]
fn pack_exact_value() {
    // entries occupy nibbles from the least significant end upward;
    // unused nibbles hold the sentinel 15.
    let packed = pack(&vec![1, 2]).unwrap();
    assert_eq!(packed, 0xFFFF_FFFF_FFFF_FF21u64);
    let empty = pack(&vec![]).unwrap();
    assert_eq!(empty, u64::MAX);
}

#[test]
fn pack_unpack_roundtrip() {
    let cases: Vec<Vec<u8>> = vec![
        vec![],
        vec![0],
        vec![1, 2, 0],
        vec![14, 0, 14, 7, 3],
        vec![0, 0, 0, 1, 0, 0, 0, 0],
        vec![9, 8, 7, 6, 5, 4, 3, 2, 1, 0, 1, 2, 3, 4, 5, 6],
    ];
    for v in cases {
        let packed = pack(&v).unwrap();
        assert_eq!(unpack(packed), v);
    }
}

#[test]
fn pack_rejects_long_vectors() {
    let v: Vec<u8> = vec![0; 17];
    assert_eq!(pack(&v).unwrap_err(), BuildError::TooManyScores);
}

#[test]
fn pack_rejects_large_scores() {
    assert_eq!(pack(&vec![0, 15]).unwrap_err(), BuildError::ScoreTooLarge);
}

#[test]
fn unpack_stops_at_sentinel() {
    assert_eq!(unpack(u64::MAX), Vec::<u8>::new());
    // low nibble 3, then the sentinel
    assert_eq!(unpack(0xFFFF_FFFF_FFFF_FFF3u64), vec![3]);
}
