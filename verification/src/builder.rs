//! Key builder: encodes every raw line, packs its scores, renders the
//! alphabetic key as UTF-8 bytes, and produces the deduplicated,
//! byte-lexicographically sorted sequence of (key, packed value) pairs
//! that automaton construction requires.

use vstd::prelude::*;
use vstd::utf8;

use crate::codec;
use crate::codec::{BuildError, EntryKind};

verus! {

/// Byte-wise lexicographic order on the suffixes of `a` and `b` that
/// start at position `i`.
pub open spec fn lex_lt_from(a: Seq<u8>, b: Seq<u8>, i: int) -> bool
    decreases a.len() - i,
{
    if i >= b.len() {
        false
    } else if i >= a.len() {
        true
    } else if a[i] < b[i] {
        true
    } else if a[i] > b[i] {
        false
    } else {
        lex_lt_from(a, b, i + 1)
    }
}

/// Byte-wise lexicographic order: `a` comes strictly before `b`.
pub open spec fn lex_lt(a: Seq<u8>, b: Seq<u8>) -> bool {
    lex_lt_from(a, b, 0)
}

proof fn lemma_lex_irrefl(a: Seq<u8>, i: int)
    requires
        0 <= i,
    ensures
        !lex_lt_from(a, a, i),
    decreases a.len() - i,
{
    if i < a.len() {
        lemma_lex_irrefl(a, i + 1);
    }
}

proof fn lemma_lex_trans(a: Seq<u8>, b: Seq<u8>, c: Seq<u8>, i: int)
    requires
        0 <= i,
        lex_lt_from(a, b, i),
        lex_lt_from(b, c, i),
    ensures
        lex_lt_from(a, c, i),
    decreases a.len() - i,
{
    if i < a.len() && i < b.len() && i < c.len() {
        if a[i] == b[i] && b[i] == c[i] {
            lemma_lex_trans(a, b, c, i + 1);
        }
    }
}

/// Strict transitivity of the key order, stated over whole keys.
pub proof fn lemma_lex_lt_trans(a: Seq<u8>, b: Seq<u8>, c: Seq<u8>)
    requires
        lex_lt(a, b),
        lex_lt(b, c),
    ensures
        lex_lt(a, c),
        a != c,
{
    lemma_lex_trans(a, b, c, 0);
    if a == c {
        lemma_lex_trans(a, b, a, 0);
        lemma_lex_irrefl(a, 0);
    }
}

/// Three-way byte-lexicographic comparison of two keys: `-1`, `0` or `1`
/// as `a` comes before, equals, or comes after `b`.
pub fn lex_compare(a: &Vec<u8>, b: &Vec<u8>) -> (r: i8)
    ensures
        r == -1 || r == 0 || r == 1,
        (r == -1) <==> lex_lt(a@, b@),
        (r == 0) <==> (a@ == b@),
        (r == 1) <==> lex_lt(b@, a@),
{
    let mut i: usize = 0;
    while i < a.len() && i < b.len()
        invariant
            i <= a@.len(),
            i <= b@.len(),
            forall|t: int| 0 <= t < i ==> a@[t] == b@[t],
            lex_lt(a@, b@) == lex_lt_from(a@, b@, i as int),
            lex_lt(b@, a@) == lex_lt_from(b@, a@, i as int),
        decreases a@.len() - i,
    {
        let x = a[i];
        let y = b[i];
        if x < y {
            return -1;
        }
        if x > y {
            return 1;
        }
        i = i + 1;
    }
    if a.len() == b.len() {
        proof {
            assert(a@ =~= b@);
            lemma_lex_irrefl(a@, i as int);
        }
        0
    } else if a.len() < b.len() {
        proof {
            assert(a@.len() != b@.len());
            assert(a@ != b@);
        }
        -1
    } else {
        proof {
            assert(a@ != b@);
        }
        1
    }
}

proof fn lemma_encode_utf8_snoc(s: Seq<char>, c: char)
    ensures
        utf8::encode_utf8(s.push(c)) == utf8::encode_utf8(s) + utf8::encode_scalar(c as u32),
    decreases s.len(),
{
    if s.len() == 0 {
        assert(s.push(c)[0] == c);
        assert(s.push(c).drop_first() =~= Seq::<char>::empty());
        assert(utf8::encode_utf8(s.push(c)) == utf8::encode_scalar(c as u32) + utf8::encode_utf8(
            Seq::<char>::empty(),
        ));
        assert(utf8::encode_scalar(c as u32) + utf8::encode_utf8(Seq::<char>::empty())
            =~= utf8::encode_utf8(s) + utf8::encode_scalar(c as u32));
    } else {
        lemma_encode_utf8_snoc(s.drop_first(), c);
        assert(s.push(c)[0] == s[0]);
        assert(s.push(c).drop_first() =~= s.drop_first().push(c));
        assert(utf8::encode_utf8(s.push(c)) == utf8::encode_scalar(s[0] as u32) + (
        utf8::encode_utf8(s.drop_first()) + utf8::encode_scalar(c as u32)));
        assert(utf8::encode_scalar(s[0] as u32) + (utf8::encode_utf8(s.drop_first())
            + utf8::encode_scalar(c as u32)) =~= (utf8::encode_scalar(s[0] as u32)
            + utf8::encode_utf8(s.drop_first())) + utf8::encode_scalar(c as u32));
        assert(utf8::encode_utf8(s) == utf8::encode_scalar(s[0] as u32) + utf8::encode_utf8(
            s.drop_first(),
        ));
    }
}

/// Appends the UTF-8 encoding of `c` to `out`, byte for byte as vstd's
/// `encode_scalar` describes it.
fn push_scalar_bytes(out: &mut Vec<u8>, c: char)
    ensures
        final(out)@ == old(out)@ + utf8::encode_scalar(c as u32),
{
    let u: u32 = c as u32;
    let ghost out0 = out@;
    if u <= 0x7F {
        assert((u & 0x7F) < 256) by (bit_vector);
        out.push((u & 0x7F) as u8);
        proof {
            assert(out@ =~= out0 + utf8::encode_scalar(c as u32));
        }
    } else if u <= 0x7FF {
        assert(((u >> 6) & 0x1F) < 256 && (u & 0x3F) < 256) by (bit_vector);
        out.push(0xC0 | ((u >> 6) & 0x1F) as u8);
        out.push(0x80 | (u & 0x3F) as u8);
        proof {
            assert(out@ =~= out0 + utf8::encode_scalar(c as u32));
        }
    } else if u <= 0xFFFF {
        assert(((u >> 12) & 0x0F) < 256 && ((u >> 6) & 0x3F) < 256 && (u & 0x3F) < 256)
            by (bit_vector);
        out.push(0xE0 | ((u >> 12) & 0x0F) as u8);
        out.push(0x80 | ((u >> 6) & 0x3F) as u8);
        out.push(0x80 | (u & 0x3F) as u8);
        proof {
            assert(out@ =~= out0 + utf8::encode_scalar(c as u32));
        }
    } else {
        assert(((u >> 18) & 0x7) < 256 && ((u >> 12) & 0x3F) < 256 && ((u >> 6) & 0x3F) < 256 && (u
            & 0x3F) < 256) by (bit_vector);
        out.push(0xF0 | ((u >> 18) & 0x7) as u8);
        out.push(0x80 | ((u >> 12) & 0x3F) as u8);
        out.push(0x80 | ((u >> 6) & 0x3F) as u8);
        out.push(0x80 | (u & 0x3F) as u8);
        proof {
            assert(out@ =~= out0 + utf8::encode_scalar(c as u32));
        }
    }
}

/// The UTF-8 byte rendering of an alphabetic key.
pub fn key_bytes(key: &Vec<char>) -> (r: Vec<u8>)
    ensures
        r@ == utf8::encode_utf8(key@),
{
    let mut out: Vec<u8> = Vec::new();
    let mut i: usize = 0;
    proof {
        assert(key@.take(0) =~= Seq::<char>::empty());
        assert(out@ =~= utf8::encode_utf8(key@.take(0)));
    }
    while i < key.len()
        invariant
            i <= key@.len(),
            out@ == utf8::encode_utf8(key@.take(i as int)),
        decreases key@.len() - i,
    {
        push_scalar_bytes(&mut out, key[i]);
        proof {
            lemma_encode_utf8_snoc(key@.take(i as int), key@[i as int]);
            assert(key@.take(i as int).push(key@[i as int]) =~= key@.take(i as int + 1));
        }
        i = i + 1;
    }
    proof {
        assert(key@.take(key@.len() as int) =~= key@);
    }
    out
}

/// What one raw line contributes to the key set: its key bytes and
/// packed value, or the error that rejects it.
pub open spec fn spec_line_entry(kind: EntryKind, line: Seq<char>) -> Result<
    (Seq<u8>, int),
    BuildError,
> {
    match codec::spec_encode(kind, line) {
        None => Err(BuildError::AdjacentMarks),
        Some(p) => if p.1.len() > 16 {
            Err(BuildError::TooManyScores)
        } else {
            Ok((utf8::encode_utf8(p.0), codec::spec_pack(p.1)))
        },
    }
}

/// The mapping from key bytes to packed value that a sequence of raw
/// lines describes, processed in order; the first rejected line or the
/// first key collision wins.
pub open spec fn spec_build_map(kind: EntryKind, lines: Seq<Seq<char>>) -> Result<
    Map<Seq<u8>, int>,
    BuildError,
>
    decreases lines.len(),
{
    if lines.len() == 0 {
        Ok(Map::<Seq<u8>, int>::empty())
    } else {
        match spec_build_map(kind, lines.drop_last()) {
            Err(e) => Err(e),
            Ok(m) => match spec_line_entry(kind, lines.last()) {
                Err(e) => Err(e),
                Ok(p) => if m.contains_key(p.0) && m[p.0] != p.1 {
                    Err(BuildError::KeyCollision)
                } else {
                    Ok(m.insert(p.0, p.1))
                },
            },
        }
    }
}

proof fn lemma_scan_scores_bounded(kind: EntryKind, s: Seq<char>, skip: bool)
    requires
        codec::spec_scan(kind, s, skip) is Some,
    ensures
        forall|i: int|
            0 <= i < (codec::spec_scan(kind, s, skip)->Some_0).1.len() ==> (codec::spec_scan(
                kind,
                s,
                skip,
            )->Some_0).1[i] <= 14,
    decreases s.len(),
{
    if s.len() > 0 {
        match codec::spec_classify(kind, s[0]) {
            Some(n) => {
                lemma_scan_scores_bounded(kind, s.drop_first(), true);
                assert(n <= 14);
            },
            None => {
                lemma_scan_scores_bounded(kind, s.drop_first(), false);
            },
        }
    }
}

proof fn lemma_build_err_propagates(kind: EntryKind, lines: Seq<Seq<char>>, j: int)
    requires
        0 <= j <= lines.len(),
        spec_build_map(kind, lines.take(j)) is Err,
    ensures
        spec_build_map(kind, lines) == spec_build_map(kind, lines.take(j)),
    decreases lines.len() - j,
{
    if j == lines.len() {
        assert(lines.take(j) =~= lines);
    } else {
        assert(lines.take(j + 1).drop_last() =~= lines.take(j));
        lemma_build_err_propagates(kind, lines, j + 1);
    }
}

/// Encodes one raw line into its key bytes and packed value.
///
/// Returns `Ok` exactly when the line is well formed and its score
/// vector fits a packed value; the pair is then precisely what
/// `spec_line_entry` gives for the line.
pub fn line_to_entry(kind: EntryKind, line: &Vec<char>) -> (r: Result<(Vec<u8>, u64), BuildError>)
    ensures
        match r {
            Ok(p) => spec_line_entry(kind, line@) == Ok::<(Seq<u8>, int), BuildError>(
                (p.0@, p.1 as int),
            ),
            Err(e) => spec_line_entry(kind, line@) == Err::<(Seq<u8>, int), BuildError>(e),
        },
{
    let pair = match codec::encode(kind, line) {
        Ok(p) => p,
        Err(e) => {
            return Err(e);
        },
    };
    let packed = match codec::pack(&pair.scores) {
        Ok(x) => x,
        Err(e) => {
            proof {
                lemma_scan_scores_bounded(kind, line@, false);
                if e != BuildError::TooManyScores {
                    assert(false);
                }
            }
            return Err(e);
        },
    };
    let kb = key_bytes(&pair.key);
    Ok((kb, packed))
}

/// Whether the keys of `out` are strictly increasing in byte order; in
/// particular no key occurs twice.
pub open spec fn strictly_increasing(out: Seq<(Vec<u8>, u64)>) -> bool {
    forall|i1: int, i2: int| 0 <= i1 < i2 < out.len() ==> lex_lt(out[i1].0@, out[i2].0@)
}

/// Whether each key of `out` exceeds its immediate neighbour in byte
/// order — the check the automaton builder applies while inserting.
pub open spec fn adjacent_increasing(out: Seq<(Vec<u8>, u64)>) -> bool {
    forall|i: int| 0 <= i && i + 1 < out.len() ==> lex_lt((#[trigger] out[i]).0@, out[i + 1].0@)
}

proof fn lemma_adjacent_pair(out: Seq<(Vec<u8>, u64)>, i1: int, i2: int)
    requires
        adjacent_increasing(out),
        0 <= i1 < i2 < out.len(),
    ensures
        lex_lt(out[i1].0@, out[i2].0@),
    decreases i2 - i1,
{
    if i2 == i1 + 1 {
    } else {
        lemma_adjacent_pair(out, i1, i2 - 1);
        lemma_lex_lt_trans(out[i1].0@, out[i2 - 1].0@, out[i2].0@);
    }
}

/// Keys that each exceed their neighbour are strictly increasing as a
/// whole, and the converse holds outright.
pub proof fn lemma_adjacent_iff_strict(out: Seq<(Vec<u8>, u64)>)
    ensures
        adjacent_increasing(out) <==> strictly_increasing(out),
{
    if adjacent_increasing(out) {
        assert forall|i1: int, i2: int| 0 <= i1 < i2 < out.len() implies lex_lt(
            out[i1].0@,
            out[i2].0@,
        ) by {
            lemma_adjacent_pair(out, i1, i2);
        }
    }
}

/// Whether the pairs of `out` are exactly the pairs of the mapping `m`.
pub open spec fn matches_key_map(out: Seq<(Vec<u8>, u64)>, m: Map<Seq<u8>, int>) -> bool {
    &&& forall|i: int|
        0 <= i < out.len() ==> m.contains_key(#[trigger] out[i].0@) && m[out[i].0@] == out[i].1 as int
    &&& forall|k: Seq<u8>|
        m.contains_key(k) ==> exists|i: int| 0 <= i < out.len() && (#[trigger] out[i].0@) == k
}

/// Builds the sorted, deduplicated key set of a sequence of raw lines.
///
/// On success the output carries exactly the pairs of the mapping that
/// the lines describe, with strictly increasing keys in byte order: no
/// key occurs twice, and exact duplicate lines collapse into one entry.
/// A malformed line, an oversized score vector, or two lines that share
/// a key but disagree on its packed value yield the corresponding error.
pub fn build(kind: EntryKind, lines: &Vec<Vec<char>>) -> (r: Result<
    Vec<(Vec<u8>, u64)>,
    BuildError,
>)
    ensures
        r is Ok ==> spec_build_map(kind, lines.deep_view()) is Ok && strictly_increasing(
            (r->Ok_0)@,
        ) && matches_key_map((r->Ok_0)@, spec_build_map(kind, lines.deep_view())->Ok_0),
        r is Err ==> spec_build_map(kind, lines.deep_view()) == Err::<Map<Seq<u8>, int>,
            BuildError,
        >(r->Err_0),
{
    let ghost glines = lines.deep_view();
    let mut out: Vec<(Vec<u8>, u64)> = Vec::new();
    let ghost mut m = Map::<Seq<u8>, int>::empty();
    let mut i: usize = 0;
    proof {
        assert(glines.take(0) =~= Seq::<Seq<char>>::empty());
    }
    while i < lines.len()
        invariant
            i <= lines@.len(),
            glines == lines.deep_view(),
            glines.len() == lines@.len(),
            spec_build_map(kind, glines.take(i as int)) == Ok::<Map<Seq<u8>, int>, BuildError>(m),
            strictly_increasing(out@),
            matches_key_map(out@, m),
        decreases lines@.len() - i,
    {
        proof {
            assert(glines[i as int] == lines@[i as int].deep_view());
            assert(lines@[i as int].deep_view() =~= lines@[i as int]@);
            assert(glines.take(i as int + 1).drop_last() =~= glines.take(i as int));
            assert(glines.take(i as int + 1).last() == glines[i as int]);
        }
        let entry = match line_to_entry(kind, &lines[i]) {
            Ok(p) => p,
            Err(e) => {
                proof {
                    lemma_build_err_propagates(kind, glines, i as int + 1);
                }
                return Err(e);
            },
        };
        let (kb, val) = entry;
        let ghost kbs = kb@;
        // find the first position whose key is not below kb
        let mut j: usize = 0;
        let mut stop: bool = false;
        while j < out.len() && !stop
            invariant
                j <= out@.len(),
                forall|t: int| 0 <= t < j ==> lex_lt(#[trigger] out@[t].0@, kbs),
                forall|t: int| 0 <= t < j ==> (#[trigger] out@[t].0@) != kbs,
                stop ==> j < out@.len() && !lex_lt(out@[j as int].0@, kbs),
                kbs == kb@,
            decreases out@.len() - j + if stop {
                0int
            } else {
                1int
            },
        {
            let c = lex_compare(&out[j].0, &kb);
            if c == -1 {
                j = j + 1;
            } else {
                stop = true;
            }
        }
        if stop {
            let c2 = lex_compare(&out[j].0, &kb);
            if c2 == 0 {
                // the key is already present
                if out[j].1 == val {
                    // an exact duplicate pair: drop it
                    proof {
                        assert(m.contains_key(kbs) && m[kbs] == val as int);
                        assert(m.insert(kbs, val as int) =~= m);
                    }
                    i = i + 1;
                    continue;
                } else {
                    // same key, different packed value
                    proof {
                        assert(m.contains_key(kbs) && m[kbs] != val as int);
                        lemma_build_err_propagates(kind, glines, i as int + 1);
                    }
                    return Err(BuildError::KeyCollision);
                }
            }
            proof {
                assert(lex_lt(kbs, out@[j as int].0@));
            }
        }
        // kb is new: every key before position j is below it, every key at
        // or after position j is above it
        proof {
            let outv = out@;
            assert forall|t: int| j <= t < outv.len() implies lex_lt(kbs, #[trigger] outv[t].0@)
                && outv[t].0@ != kbs by {
                if t == j {
                    if kbs == outv[t].0@ {
                        lemma_lex_irrefl(kbs, 0);
                    }
                } else {
                    lemma_lex_lt_trans(kbs, outv[j as int].0@, outv[t].0@);
                }
            }
            if m.contains_key(kbs) {
                let t = choose|t: int| 0 <= t < outv.len() && outv[t].0@ == kbs;
                assert(false);
            }
        }
        let ghost out0 = out@;
        let ghost m0 = m;
        out.insert(j, (kb, val));
        proof {
            m = m0.insert(kbs, val as int);
            let elt = out@[j as int];
            out0.insert_ensures(j as int, elt);
            assert(out@[j as int].0@ == kbs && out@[j as int].1 == val);
            assert forall|i1: int, i2: int| 0 <= i1 < i2 < out@.len() implies lex_lt(
                out@[i1].0@,
                out@[i2].0@,
            ) by {
                if i1 < j {
                    assert(out@[i1] == out0[i1]);
                } else if i1 > j {
                    assert(out@[i1] == out0[i1 - 1]);
                }
                if i2 < j {
                    assert(out@[i2] == out0[i2]);
                } else if i2 > j {
                    assert(out@[i2] == out0[i2 - 1]);
                }
            }
            assert forall|t: int| 0 <= t < out@.len() implies m.contains_key(
                #[trigger] out@[t].0@,
            ) && m[out@[t].0@] == out@[t].1 as int by {
                if t < j {
                    assert(out@[t] == out0[t]);
                } else if t > j {
                    assert(out@[t] == out0[t - 1]);
                }
            }
            assert forall|k: Seq<u8>| m.contains_key(k) implies exists|t: int|
                0 <= t < out@.len() && #[trigger] out@[t].0@ == k by {
                if k == kbs {
                    assert(out@[j as int].0@ == k);
                } else {
                    let t0 = choose|t0: int| 0 <= t0 < out0.len() && out0[t0].0@ == k;
                    if t0 < j {
                        assert(out@[t0].0@ == k);
                    } else {
                        assert(out@[t0 + 1].0@ == k);
                    }
                }
            }
            assert(strictly_increasing(out@));
            assert(matches_key_map(out@, m));
        }
        i = i + 1;
    }
    proof {
        assert(glines.take(i as int) =~= glines);
        assert(spec_build_map(kind, lines.deep_view()) == Ok::<Map<Seq<u8>, int>, BuildError>(m));
    }
    Ok(out)
}

} // verus!
