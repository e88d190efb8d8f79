//! Score codec: turns a normalized pattern or exception line into an
//! alphabetic key paired with a score vector, and packs a score vector
//! into a single 64-bit value, four bits per entry.

use vstd::prelude::*;

verus! {

/// How many score entries fit into one packed value.
pub const MAX_SCORES: usize = 16;

/// The largest score an entry may carry; the nibble value above it is
/// reserved as the end-of-vector sentinel.
pub const MAX_SCORE: u8 = 14;

/// The nibble value that marks the end of a packed score vector.
pub const SENTINEL: u8 = 15;

/// Why a raw line or a score vector was rejected at build time.
#[derive(Clone, Copy, Debug, PartialEq, Eq, Structural)]
pub enum BuildError {
    /// Two adjacent characters of the line both carry an explicit score.
    AdjacentMarks,
    /// The score vector has more entries than a packed value can hold.
    TooManyScores,
    /// A score entry exceeds the largest packable score.
    ScoreTooLarge,
    /// Two lines share an alphabetic key but disagree on their scores.
    KeyCollision,
}

/// The kind of a raw line: a pattern, where the digits `'0'`–`'9'` carry
/// explicit scores, or an exception, where only `'-'` does (fixed at 1).
#[derive(Clone, Copy, Debug, PartialEq, Eq, Structural)]
pub enum EntryKind {
    Pattern,
    Exception,
}

/// The explicit score carried by `c`, if any: under `Pattern` a decimal
/// digit carries its value, under `Exception` the character `'-'` carries 1.
pub open spec fn spec_classify(kind: EntryKind, c: char) -> Option<u8> {
    match kind {
        EntryKind::Pattern => if '0' <= c && c <= '9' {
            Some((((c as u32) - ('0' as u32)) as u8))
        } else {
            None
        },
        EntryKind::Exception => if c == '-' {
            Some(1u8)
        } else {
            None
        },
    }
}

/// An alphabetic key together with its score vector; one score per
/// letter-to-letter gap, including the gaps before the first and after
/// the last letter, so `scores` always has one entry more than `key`.
#[derive(Debug)]
pub struct KLPair {
    pub key: Vec<char>,
    pub scores: Vec<u8>,
}

/// One left-to-right scan of the line: processes `s` under the skip flag
/// `skip`, returning the key characters and score entries contributed by
/// `s`, or `None` if two adjacent characters carry explicit scores.
pub open spec fn spec_scan(kind: EntryKind, s: Seq<char>, skip: bool) -> Option<
    (Seq<char>, Seq<u8>),
>
    decreases s.len(),
{
    if s.len() == 0 {
        if skip {
            Some((Seq::<char>::empty(), Seq::<u8>::empty()))
        } else {
            Some((Seq::<char>::empty(), seq![0u8]))
        }
    } else {
        match spec_classify(kind, s[0]) {
            Some(n) => if skip {
                None
            } else {
                match spec_scan(kind, s.drop_first(), true) {
                    Some(p) => Some((p.0, seq![n] + p.1)),
                    None => None,
                }
            },
            None => match spec_scan(kind, s.drop_first(), false) {
                Some(p) => Some(
                    (
                        seq![s[0]] + p.0,
                        if skip {
                            p.1
                        } else {
                            seq![0u8] + p.1
                        },
                    ),
                ),
                None => None,
            },
        }
    }
}

/// The key and score vector encoded from the normalized line `s`, or
/// `None` if the line is malformed.
pub open spec fn spec_encode(kind: EntryKind, s: Seq<char>) -> Option<(Seq<char>, Seq<u8>)> {
    spec_scan(kind, s, false)
}

/// The explicit score carried by `c`, if any.
pub fn classify(kind: EntryKind, c: char) -> (r: Option<u8>)
    ensures
        r == spec_classify(kind, c),
{
    match kind {
        EntryKind::Pattern => {
            let u: u32 = c as u32;
            if 0x30 <= u && u <= 0x39 {
                Some((u - 0x30) as u8)
            } else {
                None
            }
        },
        EntryKind::Exception => {
            if c == '-' {
                Some(1)
            } else {
                None
            }
        },
    }
}

/// Encodes one normalized line into its key and score vector.
///
/// Returns `Ok` exactly when no two adjacent characters both carry an
/// explicit score; the result is then precisely `spec_encode(kind, chars@)`.
/// Encoding is a function of the line and kind alone, so encoding the
/// same line twice yields identical pairs.
pub fn encode(kind: EntryKind, chars: &Vec<char>) -> (r: Result<KLPair, BuildError>)
    ensures
        match r {
            Ok(p) => spec_encode(kind, chars@) == Some((p.key@, p.scores@)),
            Err(e) => spec_encode(kind, chars@) is None && e == BuildError::AdjacentMarks,
        },
{
    let mut key: Vec<char> = Vec::new();
    let mut scores: Vec<u8> = Vec::new();
    let mut skip: bool = false;
    let mut i: usize = 0;
    proof {
        assert(chars@.skip(0) =~= chars@);
        if spec_encode(kind, chars@) is Some {
            let p = spec_encode(kind, chars@)->Some_0;
            assert(Seq::<char>::empty() + p.0 =~= p.0);
            assert(Seq::<u8>::empty() + p.1 =~= p.1);
        }
    }
    while i < chars.len()
        invariant
            i <= chars@.len(),
            match spec_scan(kind, chars@.skip(i as int), skip) {
                Some(p) => spec_encode(kind, chars@) == Some((key@ + p.0, scores@ + p.1)),
                None => spec_encode(kind, chars@) is None,
            },
        decreases chars@.len() - i,
    {
        let ghost rest = chars@.skip(i as int);
        let ghost key0 = key@;
        let ghost scores0 = scores@;
        let ghost skip0 = skip;
        proof {
            assert(rest[0] == chars@[i as int]);
            assert(rest.drop_first() =~= chars@.skip(i as int + 1));
        }
        let c = chars[i];
        match classify(kind, c) {
            Some(n) => {
                if skip {
                    assert(spec_scan(kind, rest, true) is None);
                    return Err(BuildError::AdjacentMarks);
                }
                scores.push(n);
                skip = true;
                proof {
                    if spec_scan(kind, rest.drop_first(), true) is Some {
                        let p = spec_scan(kind, rest.drop_first(), true)->Some_0;
                        assert(spec_scan(kind, rest, false) == Some::<(Seq<char>, Seq<u8>)>(
                            (p.0, seq![n] + p.1),
                        ));
                        assert(scores0 + (seq![n] + p.1) =~= scores@ + p.1);
                    }
                }
            },
            None => {
                if !skip {
                    scores.push(0);
                } else {
                    skip = false;
                }
                key.push(c);
                proof {
                    if spec_scan(kind, rest.drop_first(), false) is Some {
                        let p = spec_scan(kind, rest.drop_first(), false)->Some_0;
                        assert(key0 + (seq![c] + p.0) =~= key@ + p.0);
                        if skip0 {
                            assert(scores0 + p.1 =~= scores@ + p.1);
                        } else {
                            assert(scores0 + (seq![0u8] + p.1) =~= scores@ + p.1);
                        }
                    }
                }
            },
        }
        i = i + 1;
    }
    proof {
        assert(chars@.skip(i as int) =~= Seq::<char>::empty());
    }
    let ghost scores1 = scores@;
    if !skip {
        scores.push(0);
        proof {
            assert(scores1 + seq![0u8] =~= scores@);
        }
    }
    proof {
        assert(key@ + Seq::<char>::empty() =~= key@);
        assert(scores@ + Seq::<u8>::empty() =~= scores@);
    }
    Ok(KLPair { key, scores })
}

proof fn lemma_scan_len(kind: EntryKind, s: Seq<char>, skip: bool)
    requires
        spec_scan(kind, s, skip) is Some,
    ensures
        (spec_scan(kind, s, skip)->Some_0).1.len() == (spec_scan(kind, s, skip)->Some_0).0.len()
            + if skip {
            0int
        } else {
            1int
        },
    decreases s.len(),
{
    if s.len() > 0 {
        match spec_classify(kind, s[0]) {
            Some(_) => {
                lemma_scan_len(kind, s.drop_first(), true);
            },
            None => {
                lemma_scan_len(kind, s.drop_first(), false);
            },
        }
    }
}

/// The invariant of an encoded pair: the score vector has exactly one
/// entry per letter-to-letter gap, that is one more entry than the key
/// has characters.
pub proof fn lemma_encode_score_count(kind: EntryKind, s: Seq<char>)
    requires
        spec_encode(kind, s) is Some,
    ensures
        (spec_encode(kind, s)->Some_0).1.len() == (spec_encode(kind, s)->Some_0).0.len() + 1,
{
    lemma_scan_len(kind, s, false);
}

/// Whether `v` fits the packed representation: at most sixteen entries,
/// none above the largest packable score.
pub open spec fn valid_scores(v: Seq<u8>) -> bool {
    v.len() <= 16 && forall|i: int| 0 <= i < v.len() ==> v[i] <= 14
}

/// The nibble stored at position `i`: a score where one exists, the
/// sentinel above the last entry.
pub open spec fn spec_nibble(v: Seq<u8>, i: int) -> int {
    if i < v.len() {
        v[i] as int
    } else {
        15
    }
}

/// The packed value restricted to nibbles `i` and upward, as an integer.
pub open spec fn spec_pack_from(v: Seq<u8>, i: int) -> int
    decreases 16 - i,
{
    if i >= 16 {
        0
    } else {
        spec_nibble(v, i) + 16 * spec_pack_from(v, i + 1)
    }
}

/// The packed form of the score vector `v`: entries from the
/// least-significant nibble upward, unused nibbles filled with the sentinel.
pub open spec fn spec_pack(v: Seq<u8>) -> int {
    spec_pack_from(v, 0)
}

/// Sixteen to the power `k`.
pub open spec fn pow16(k: nat) -> int
    decreases k,
{
    if k == 0 {
        1
    } else {
        16 * pow16((k - 1) as nat)
    }
}

proof fn lemma_pow16_mono(a: nat, b: nat)
    requires
        a <= b,
    ensures
        1 <= pow16(a) <= pow16(b),
    decreases b,
{
    if b == 0 {
    } else if a == b {
        lemma_pow16_mono((a - 1) as nat, (b - 1) as nat);
    } else {
        lemma_pow16_mono(a, (b - 1) as nat);
    }
}

proof fn lemma_pack_from_bound(v: Seq<u8>, i: int)
    requires
        0 <= i <= 16,
        valid_scores(v),
    ensures
        0 <= spec_pack_from(v, i) < pow16((16 - i) as nat),
    decreases 16 - i,
{
    if i < 16 {
        lemma_pack_from_bound(v, i + 1);
        assert(pow16((16 - i) as nat) == 16 * pow16((16 - i - 1) as nat));
    }
}

proof fn lemma_pow16_16()
    ensures
        pow16(16) == 0x1_0000_0000_0000_0000,
{
    reveal_with_fuel(pow16, 17);
}

/// Packs a score vector into a single 64-bit value.
///
/// Returns `Ok` exactly when the vector fits: at most sixteen entries,
/// each at most the largest packable score.
pub fn pack(v: &Vec<u8>) -> (r: Result<u64, BuildError>)
    ensures
        match r {
            Ok(x) => valid_scores(v@) && x == spec_pack(v@),
            Err(e) => !valid_scores(v@) && (e == BuildError::TooManyScores || e
                == BuildError::ScoreTooLarge),
        },
        r == Err::<u64, BuildError>(BuildError::TooManyScores) ==> v@.len() > 16,
        r == Err::<u64, BuildError>(BuildError::ScoreTooLarge) ==> exists|i: int|
            0 <= i < v@.len() && v@[i] > 14,
{
    if v.len() > MAX_SCORES {
        return Err(BuildError::TooManyScores);
    }
    let mut j: usize = 0;
    while j < v.len()
        invariant
            j <= v@.len() <= 16,
            forall|t: int| 0 <= t < j ==> v@[t] <= 14,
        decreases v@.len() - j,
    {
        if v[j] > MAX_SCORE {
            return Err(BuildError::ScoreTooLarge);
        }
        j = j + 1;
    }
    let mut r: u64 = 0;
    let mut i: usize = 16;
    while i > 0
        invariant
            i <= 16,
            valid_scores(v@),
            r == spec_pack_from(v@, i as int),
            0 <= r < pow16((16 - i as int) as nat),
        decreases i,
    {
        i = i - 1;
        let nib: u8 = if i < v.len() {
            v[i]
        } else {
            SENTINEL
        };
        proof {
            lemma_pack_from_bound(v@, i as int);
            assert(pow16((16 - i as int) as nat) == 16 * pow16((15 - i as int) as nat));
            lemma_pow16_mono((16 - i as int) as nat, 16);
            lemma_pow16_16();
        }
        r = r * 16 + nib as u64;
    }
    Ok(r)
}

/// The score vector read from `x` starting at its lowest nibble, for up
/// to `k` nibbles, stopping at the first sentinel nibble.
pub open spec fn spec_unpack_rec(x: int, k: nat) -> Seq<u8>
    decreases k,
{
    if k == 0 {
        Seq::<u8>::empty()
    } else {
        let nib = x % 16;
        if nib == 15 {
            Seq::<u8>::empty()
        } else {
            seq![nib as u8] + spec_unpack_rec(x / 16, (k - 1) as nat)
        }
    }
}

/// The score vector encoded in the packed value `x`: nibbles from the
/// least significant upward, up to the first sentinel or sixteen entries.
pub open spec fn spec_unpack(x: int) -> Seq<u8> {
    spec_unpack_rec(x, 16)
}

/// Unpacks a packed value back into its score vector.
pub fn unpack(x: u64) -> (r: Vec<u8>)
    ensures
        r@ == spec_unpack(x as int),
{
    let mut out: Vec<u8> = Vec::new();
    let mut cur: u64 = x;
    let mut k: usize = 0;
    while k < 16
        invariant
            k <= 16,
            spec_unpack(x as int) == out@ + spec_unpack_rec(cur as int, (16 - k as int) as nat),
        decreases 16 - k,
    {
        let ghost out0 = out@;
        let nib: u64 = cur % 16;
        if nib == SENTINEL as u64 {
            proof {
                assert(spec_unpack_rec(cur as int, (16 - k as int) as nat) =~= Seq::<u8>::empty());
                assert(spec_unpack(x as int) =~= out@);
            }
            return out;
        }
        out.push(nib as u8);
        proof {
            let rest = spec_unpack_rec(cur as int / 16, (15 - k as int) as nat);
            assert(spec_unpack_rec(cur as int, (16 - k as int) as nat) == seq![(
            (cur as int) % 16) as u8] + rest);
            assert(out0 + (seq![nib as u8] + rest) =~= out@ + rest);
        }
        cur = cur / 16;
        k = k + 1;
    }
    proof {
        assert(spec_unpack_rec(cur as int, 0) =~= Seq::<u8>::empty());
        assert(spec_unpack(x as int) =~= out@);
    }
    out
}

proof fn lemma_div_mod_16(nib: int, rest: int)
    by (nonlinear_arith)
    requires
        0 <= nib < 16,
        0 <= rest,
    ensures
        (nib + 16 * rest) % 16 == nib,
        (nib + 16 * rest) / 16 == rest,
{
}

proof fn lemma_unpack_pack_from(v: Seq<u8>, i: int)
    requires
        valid_scores(v),
        0 <= i <= 16,
    ensures
        spec_unpack_rec(spec_pack_from(v, i), (16 - i) as nat) == if i <= v.len() {
            v.skip(i)
        } else {
            Seq::<u8>::empty()
        },
    decreases 16 - i,
{
    if i >= 16 {
        if i <= v.len() {
            assert(v.skip(i) =~= Seq::<u8>::empty());
        }
    } else {
        lemma_unpack_pack_from(v, i + 1);
        lemma_pack_from_bound(v, i + 1);
        let nib = spec_nibble(v, i);
        let rest = spec_pack_from(v, i + 1);
        lemma_div_mod_16(nib, rest);
        if i < v.len() {
            assert(nib == v[i] < 15);
            assert(spec_unpack_rec(spec_pack_from(v, i), (16 - i) as nat) == seq![v[i]]
                + spec_unpack_rec(rest, (15 - i) as nat));
            assert(seq![v[i]] + v.skip(i + 1) =~= v.skip(i));
        } else {
            assert(nib == 15);
        }
    }
}

/// Round trip: unpacking a packed score vector yields it back, for every
/// vector of at most sixteen entries, each at most the largest score.
pub proof fn lemma_unpack_pack(v: Seq<u8>)
    requires
        valid_scores(v),
    ensures
        spec_unpack(spec_pack(v)) == v,
{
    lemma_unpack_pack_from(v, 0);
    assert(v.skip(0) =~= v);
}

} // verus!

