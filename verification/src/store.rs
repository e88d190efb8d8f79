//! Automaton store: an immutable byte-keyed mapping built from a sorted
//! key set, held in a finite-state transducer of the `fst` crate. It
//! offers exact lookup, serialization to and from a flat byte buffer,
//! and the byte-level traversal that the prefix query engine walks.

use vstd::prelude::*;

use crate::builder;
use crate::builder::strictly_increasing;
use crate::codec::{BuildError, EntryKind};

verus! {

#[verifier::external_type_specification]
#[verifier::external_body]
pub struct ExFstMap(fst::Map);

/// The mapping from key bytes to packed values that the automaton holds.
pub uninterp spec fn map_contents(m: fst::Map) -> Map<Seq<u8>, u64>;

/// Whether `m` is an automaton as the transducer library's builder
/// produces it. The library's own construction ensures this; a map read
/// out of an arbitrary byte buffer need not satisfy it, since this
/// version of the format check accepts some foreign buffers, and on
/// such a map lookup and traversal may index out of bounds. Every
/// lookup and traversal contract below is confined to well-formed maps.
pub uninterp spec fn well_formed(m: fst::Map) -> bool;

/// Whether `bs` is the serialized form of an automaton that the
/// transducer library's builder produced.
pub uninterp spec fn valid_image(bs: Seq<u8>) -> bool;

/// Whether `a` is the address of a node of the automaton `m`.
pub uninterp spec fn is_node(m: fst::Map, a: int) -> bool;

/// The value that the automaton `m` accepts for the suffix `s` when the
/// traversal stands at node `a`: the sum of the outputs still to be read
/// along `s`, if `s` leads from `a` to a final node.
pub uninterp spec fn node_outputs(m: fst::Map, a: int, s: Seq<u8>) -> Option<u64>;

/// The serialized form of the automaton `m`.
pub uninterp spec fn fst_bytes(m: fst::Map) -> Seq<u8>;

/// What reading an automaton out of the byte buffer `bs` yields: the
/// contents read back, or nothing if the buffer is not a valid
/// serialized automaton.
pub uninterp spec fn parsed(bs: Seq<u8>) -> Option<Map<Seq<u8>, u64>>;

/// The mapping described by a sorted key set.
pub open spec fn pairs_map(pairs: Seq<(Vec<u8>, u64)>) -> Map<Seq<u8>, u64> {
    Map::new(
        |k: Seq<u8>| exists|i: int| 0 <= i < pairs.len() && pairs[i].0@ == k,
        |k: Seq<u8>| pairs[choose|i: int| 0 <= i < pairs.len() && pairs[i].0@ == k].1,
    )
}

/// Relies on `fst::Map::from_iter`: each inserted key is checked
/// against its predecessor, and an out-of-order or duplicate key is the
/// only failure — the in-memory writer cannot fail — so construction
/// succeeds exactly when each key exceeds its neighbour in byte order,
/// and then builds an automaton holding exactly those pairs.
#[verifier::external_body]
fn fst_from_pairs(pairs: Vec<(Vec<u8>, u64)>) -> (r: Result<fst::Map, String>)
    ensures
        r is Ok <==> builder::adjacent_increasing(pairs@),
        r matches Ok(m) ==> map_contents(m) == pairs_map(pairs@) && well_formed(m),
{
    fst::Map::from_iter(pairs).map_err(|e| e.to_string())
}

/// Relies on `fst::Map::as_fst` and `fst::raw::Fst::as_bytes`: the
/// returned buffer is the map's backing bytes, handed out without any
/// traversal, so the call is total; on a well-formed automaton the
/// buffer is its serialized form, and reading it back yields an
/// automaton with the same contents.
#[verifier::external_body]
fn fst_as_bytes(m: &fst::Map) -> (r: &[u8])
    ensures
        r@ == fst_bytes(*m),
        well_formed(*m) ==> valid_image(r@) && parsed(r@) == Some(map_contents(*m)),
{
    m.as_fst().as_bytes()
}

/// Relies on `fst::Map::from_bytes`. Its result is a function of the
/// bytes alone, named `parsed`. The buffer of a well-formed automaton
/// is accepted and reconstructs that automaton. The acceptance check of
/// this version of the library is shallow (a length and version test),
/// so some buffers that no serialization produced are also accepted;
/// of the map built from such a buffer nothing is claimed, in
/// particular not well-formedness.
#[verifier::external_body]
fn fst_from_bytes(bs: Vec<u8>) -> (r: Result<fst::Map, String>)
    ensures
        r matches Ok(m) ==> parsed(bs@) == Some(map_contents(m)),
        r is Err ==> parsed(bs@) is None,
        r matches Ok(m) ==> (valid_image(bs@) ==> well_formed(m)),
        valid_image(bs@) ==> r is Ok,
{
    fst::Map::from_bytes(bs).map_err(|e| e.to_string())
}

/// Relies on `fst::Map`'s `Default`: it builds an automaton from an
/// empty key sequence, so the result holds no keys at all.
#[verifier::external_body]
fn fst_empty() -> (r: fst::Map)
    ensures
        forall|k: Seq<u8>| !map_contents(r).contains_key(k),
        well_formed(r),
{
    fst::Map::default()
}

/// Relies on `fst::Map::get`: on a well-formed automaton, exact lookup
/// of one key.
#[verifier::external_body]
fn fst_get(m: &fst::Map, key: &[u8]) -> (r: Option<u64>)
    requires
        well_formed(*m),
    ensures
        r == if map_contents(*m).contains_key(key@) {
            Some(map_contents(*m)[key@])
        } else {
            None::<u64>
        },
{
    m.get(key)
}

/// Relies on `fst::Map::as_fst`, `fst::raw::Fst::root`,
/// `fst::raw::Node::addr`, `fst::raw::Node::is_final` and
/// `fst::raw::Node::final_output`: on a well-formed automaton the root
/// node accepts exactly the automaton's keys, each with its stored
/// value; the root is final exactly when the empty key is held, and its
/// final output is then that key's value.
#[verifier::external_body]
fn fst_root(m: &fst::Map) -> (r: (usize, bool, u64))
    requires
        well_formed(*m),
    ensures
        is_node(*m, r.0 as int),
        forall|s: Seq<u8>|
            node_outputs(*m, r.0 as int, s) == if map_contents(*m).contains_key(s) {
                Some(map_contents(*m)[s])
            } else {
                None::<u64>
            },
        r.1 <==> node_outputs(*m, r.0 as int, Seq::<u8>::empty()) is Some,
        r.1 ==> node_outputs(*m, r.0 as int, Seq::<u8>::empty()) == Some(r.2),
{
    let root = m.as_fst().root();
    (root.addr(), root.is_final(), root.final_output().value())
}

/// Relies on `fst::raw::Fst::node`, `fst::raw::Node::find_input`,
/// `fst::raw::Node::transition`, `fst::raw::Node::is_final` and
/// `fst::raw::Node::final_output`: one byte-level traversal step on a
/// well-formed automaton. A transition on `b` either does not exist,
/// and then no accepted suffix starts with `b`; or it leads to a node
/// that accepts each remainder `s` exactly when this node accepts `b`
/// followed by `s`, for a value lowered by the transition's output.
/// In an automaton the builder produced, every node lies on a path to a
/// final node, outputs never overflow the stored 64-bit values, and a
/// final node's remaining value for the empty suffix is its final
/// output.
#[verifier::external_body]
fn fst_step(m: &fst::Map, a: usize, b: u8) -> (r: Option<(usize, u64, bool, u64)>)
    requires
        well_formed(*m),
        is_node(*m, a as int),
    ensures
        r is None ==> forall|s: Seq<u8>| node_outputs(*m, a as int, seq![b] + s) is None,
        r matches Some(t) ==> {
            &&& is_node(*m, t.0 as int)
            &&& forall|s: Seq<u8>|
                {
                    &&& ((#[trigger] node_outputs(*m, t.0 as int, s)) matches Some(v) ==> v + t.1
                        <= u64::MAX && node_outputs(*m, a as int, seq![b] + s) == Some(
                        (v + t.1) as u64,
                    ))
                    &&& (node_outputs(*m, t.0 as int, s) is None ==> node_outputs(
                        *m,
                        a as int,
                        seq![b] + s,
                    ) is None)
                }
            &&& exists|s: Seq<u8>| node_outputs(*m, t.0 as int, s) is Some
            &&& (t.2 <==> node_outputs(*m, t.0 as int, Seq::<u8>::empty()) is Some)
            &&& (t.2 ==> node_outputs(*m, t.0 as int, Seq::<u8>::empty()) == Some(t.3))
        },
{
    let fst = m.as_fst();
    let node = fst.node(a);
    match node.find_input(b) {
        None => None,
        Some(i) => {
            let t = node.transition(i);
            let n2 = fst.node(t.addr);
            Some((t.addr, t.out.value(), n2.is_final(), n2.final_output().value()))
        },
    }
}

/// Whether a traversal standing at node `a` with accumulated output
/// `acc`, having consumed `prefix`, agrees with the automaton: the
/// node's remaining outputs, shifted by `acc`, are exactly the values
/// of the keys that extend `prefix`.
spec fn cursor_rel(fm: fst::Map, a: int, acc: u64, prefix: Seq<u8>) -> bool {
    forall|s: Seq<u8>|
        {
            &&& ((#[trigger] node_outputs(fm, a, s)) matches Some(v) ==> acc + v <= u64::MAX
                && map_contents(fm).contains_key(prefix + s) && map_contents(fm)[prefix + s] == ((
            acc + v) as u64))
            &&& (node_outputs(fm, a, s) is None ==> !map_contents(fm).contains_key(prefix + s))
        }
}

/// Why an automaton could not be built or read back.
#[derive(Debug)]
pub enum Error {
    /// The underlying transducer library rejected its input; the
    /// message is the library's own.
    Fst(String),
    /// A serialization layer above the store rejected the buffer.
    Serialization(String),
}

/// An immutable mapping from byte-sequence keys to packed values.
#[derive(Debug)]
pub struct Trie {
    map: fst::Map,
}

impl Trie {
    /// The mapping this automaton holds.
    pub closed spec fn contents(self) -> Map<Seq<u8>, u64> {
        map_contents(self.map)
    }

    /// The automaton's serialized form, as a sequence of bytes.
    pub closed spec fn spec_serialized(self) -> Seq<u8> {
        fst_bytes(self.map)
    }

    /// Whether this automaton is one the library built: constructors
    /// establish it, and lookup and traversal ask for it. An automaton
    /// read from a byte buffer is well formed when the buffer was a
    /// serialized automaton; this version of the transducer library
    /// cannot reject every other buffer.
    pub closed spec fn wf(self) -> bool {
        well_formed(self.map)
    }

    /// Builds the automaton from a key set. Construction succeeds
    /// exactly when the keys are strictly increasing in byte order, as
    /// the key builder leaves them; out-of-order or duplicate keys are
    /// rejected with the transducer library's typed error, and no
    /// partially built automaton exists then.
    pub fn from_iter(pairs: Vec<(Vec<u8>, u64)>) -> (r: Result<Trie, Error>)
        ensures
            r is Ok <==> strictly_increasing(pairs@),
            r matches Ok(t) ==> t.contents() == pairs_map(pairs@) && t.wf(),
            r matches Err(e) ==> e is Fst,
    {
        proof {
            builder::lemma_adjacent_iff_strict(pairs@);
        }
        match fst_from_pairs(pairs) {
            Ok(m) => Ok(Trie { map: m }),
            Err(e) => Err(Error::Fst(e)),
        }
    }

    /// The automaton's serialized form; on a well-formed automaton,
    /// reading it back with `from_bytes` yields an automaton with the
    /// same contents.
    pub fn as_bytes(&self) -> (r: &[u8])
        ensures
            r@ == self.spec_serialized(),
            self.wf() ==> valid_image(r@) && parsed(r@) == Some(self.contents()),
    {
        fst_as_bytes(&self.map)
    }

    /// Reads an automaton back from a byte buffer. The buffer of a
    /// serialized automaton is accepted and yields a well-formed
    /// automaton with the serialized contents. The underlying library's
    /// acceptance check is shallow, so some corrupt or foreign buffers
    /// are rejected with its typed error while others are accepted; an
    /// automaton read from such a buffer is not known to be well
    /// formed, and no lookup contract covers it.
    pub fn from_bytes(bs: Vec<u8>) -> (r: Result<Trie, Error>)
        ensures
            r is Ok <==> parsed(bs@) is Some,
            r matches Ok(t) ==> Some(t.contents()) == parsed(bs@),
            r matches Ok(t) ==> (valid_image(bs@) ==> t.wf()),
            valid_image(bs@) ==> r is Ok,
            r matches Err(e) ==> e is Fst,
    {
        match fst_from_bytes(bs) {
            Ok(m) => Ok(Trie { map: m }),
            Err(e) => Err(Error::Fst(e)),
        }
    }

    /// Serialization round trip: the automaton read back from this
    /// automaton's serialized form answers every query identically.
    pub fn roundtrip(&self) -> (r: Trie)
        requires
            self.wf(),
        ensures
            r.contents() == self.contents(),
            r.wf(),
    {
        let bs = vstd::slice::slice_to_vec(self.as_bytes());
        match Trie::from_bytes(bs) {
            Ok(t) => t,
            Err(_) => vstd::pervasive::unreached(),
        }
    }

    /// Exact lookup: the value stored under `key`, if `key` is in the
    /// automaton's key set.
    pub fn get(&self, key: &[u8]) -> (r: Option<u64>)
        requires
            self.wf(),
        ensures
            r == if self.contents().contains_key(key@) {
                Some(self.contents()[key@])
            } else {
                None::<u64>
            },
    {
        fst_get(&self.map, key)
    }

    /// Starts a prefix query: the returned cursor yields every key of
    /// the automaton that is a prefix of `query`, shortest first,
    /// beginning with the empty key if the automaton holds it.
    pub fn get_prefixes<'f, 'q>(&'f self, query: &'q [u8]) -> (r: PrefixMatches<'f, 'q>)
        requires
            self.wf(),
        ensures
            r.wf(),
            r.trie == self,
            r.query == query,
            r.pos == 0,
            !r.halted,
            r.pending_empty is Some <==> self.contents().contains_key(Seq::<u8>::empty()),
            r.pending_empty matches Some(v) ==> v == self.contents()[Seq::<u8>::empty()],
    {
        let root = fst_root(&self.map);
        let (a, fin, fo) = root;
        let pending = if fin {
            Some(fo)
        } else {
            None
        };
        let r = PrefixMatches {
            trie: self,
            query,
            pos: 0,
            addr: a,
            acc: 0,
            halted: false,
            pending_empty: pending,
        };
        proof {
            assert forall|s: Seq<u8>|
                {
                    &&& ((#[trigger] node_outputs(self.map, a as int, s)) matches Some(v) ==> 0 + v
                        <= u64::MAX && map_contents(self.map).contains_key(query@.take(0) + s)
                        && map_contents(self.map)[query@.take(0) + s] == ((0 + v) as u64))
                    &&& (node_outputs(self.map, a as int, s) is None ==> !map_contents(
                        self.map,
                    ).contains_key(query@.take(0) + s))
                } by {
                assert(query@.take(0) =~= Seq::<u8>::empty());
                assert(Seq::<u8>::empty() + s =~= s);
            }
            assert(cursor_rel(self.map, a as int, 0, query@.take(0)));
        }
        r
    }
}

/// A single-pass cursor over the keys of an automaton that are prefixes
/// of a queried word, in order of increasing length, the empty key
/// first when the automaton holds it.
#[derive(Clone)]
pub struct PrefixMatches<'f, 'q> {
    pub trie: &'f Trie,
    pub query: &'q [u8],
    pub pos: usize,
    pub addr: usize,
    pub acc: u64,
    pub halted: bool,
    pub pending_empty: Option<u64>,
}

impl<'f, 'q> PrefixMatches<'f, 'q> {
    /// The greatest prefix length the cursor has already examined:
    /// `-1` while the empty key still waits to be reported, the number
    /// of consumed bytes afterwards.
    pub open spec fn seen(self) -> int {
        if self.pending_empty is Some {
            -1
        } else {
            self.pos as int
        }
    }

    /// The cursor either has halted, or stands at a live node of a
    /// well-formed automaton whose remaining outputs, shifted by the
    /// accumulator, are exactly the values of the keys extending the
    /// consumed prefix; a pending empty-key match is the value the
    /// automaton stores under the empty key.
    pub closed spec fn wf(self) -> bool {
        &&& self.pos <= self.query@.len()
        &&& self.pending_empty matches Some(v) ==> self.pos == 0 && !self.halted
            && self.trie.contents().contains_key(Seq::<u8>::empty()) && v
            == self.trie.contents()[Seq::<u8>::empty()]
        &&& !self.halted ==> {
            &&& well_formed(self.trie.map)
            &&& is_node(self.trie.map, self.addr as int)
            &&& cursor_rel(
                self.trie.map,
                self.addr as int,
                self.acc,
                self.query@.take(self.pos as int),
            )
        }
    }

    /// Yields the packed value of the next key that is a prefix of the
    /// queried word — the empty key first when it is held — or `None`
    /// once no further prefix can match; after `None` the cursor stays
    /// exhausted.
    pub fn next(&mut self) -> (r: Option<u64>)
        requires
            old(self).wf(),
        ensures
            final(self).wf(),
            final(self).trie == old(self).trie,
            final(self).query == old(self).query,
            old(self).halted ==> r is None && *final(self) == *old(self),
            r matches Some(v) ==> {
                &&& old(self).seen() < final(self).seen() <= old(self).query@.len()
                &&& !final(self).halted
                &&& old(self).trie.contents().contains_key(
                    old(self).query@.take(final(self).seen()),
                )
                &&& v == old(self).trie.contents()[old(self).query@.take(final(self).seen())]
                &&& forall|j: int|
                    old(self).seen() < j < final(self).seen() ==> !old(
                        self,
                    ).trie.contents().contains_key(old(self).query@.take(j))
            },
            r is None ==> final(self).halted,
            r is None && !old(self).halted ==> forall|j: int|
                old(self).seen() < j <= old(self).query@.len() ==> !old(
                    self,
                ).trie.contents().contains_key(old(self).query@.take(j)),
    {
        if self.halted {
            return None;
        }
        match self.pending_empty {
            Some(v) => {
                self.pending_empty = None;
                proof {
                    assert(old(self).query@.take(0) =~= Seq::<u8>::empty());
                }
                return Some(v);
            },
            None => {},
        }
        let ghost m = self.trie.contents();
        let ghost w = self.query@;
        let ghost pos0 = self.pos;
        while self.pos < self.query.len()
            invariant
                self.trie == old(self).trie,
                self.query == old(self).query,
                m == self.trie.contents(),
                w == self.query@,
                pos0 == old(self).pos,
                pos0 <= self.pos <= w.len(),
                !old(self).halted,
                old(self).pending_empty is None,
                self.pending_empty is None,
                !self.halted,
                well_formed(self.trie.map),
                is_node(self.trie.map, self.addr as int),
                cursor_rel(self.trie.map, self.addr as int, self.acc, w.take(self.pos as int)),
                forall|j: int| pos0 < j <= self.pos ==> !m.contains_key(w.take(j)),
            decreases w.len() - self.pos,
        {
            let ghost posc = self.pos as int;
            let b = self.query[self.pos];
            proof {
                assert(w.take(posc + 1) =~= w.take(posc) + seq![b]);
            }
            match fst_step(&self.trie.map, self.addr, b) {
                None => {
                    self.halted = true;
                    proof {
                        assert forall|j: int| pos0 < j <= w.len() implies !m.contains_key(
                            w.take(j),
                        ) by {
                            if j > posc {
                                let s = w.subrange(posc + 1, j);
                                assert(w.take(j) =~= w.take(posc) + (seq![b] + s));
                                assert(node_outputs(
                                    self.trie.map,
                                    self.addr as int,
                                    seq![b] + s,
                                ) is None);
                            }
                        }
                    }
                    return None;
                },
                Some(step) => {
                    let (a2, delta, fin, fo) = step;
                    proof {
                        let s0 = choose|s: Seq<u8>|
                            node_outputs(self.trie.map, a2 as int, s) is Some;
                        assert(node_outputs(self.trie.map, self.addr as int, seq![b] + s0)
                            is Some);
                    }
                    self.acc = self.acc + delta;
                    self.addr = a2;
                    self.pos = self.pos + 1;
                    proof {
                        assert forall|s: Seq<u8>|
                            {
                                &&& ((#[trigger] node_outputs(self.trie.map, a2 as int, s))
                                    matches Some(v) ==> self.acc + v <= u64::MAX && m.contains_key(
                                    w.take(self.pos as int) + s,
                                ) && m[w.take(self.pos as int) + s] == ((self.acc + v) as u64))
                                &&& (node_outputs(self.trie.map, a2 as int, s) is None
                                    ==> !m.contains_key(w.take(self.pos as int) + s))
                            } by {
                            assert(w.take(self.pos as int) + s =~= w.take(posc) + (seq![b] + s));
                        }
                        assert(cursor_rel(
                            self.trie.map,
                            self.addr as int,
                            self.acc,
                            w.take(self.pos as int),
                        ));
                    }
                    if fin {
                        proof {
                            assert(w.take(self.pos as int) + Seq::<u8>::empty() =~= w.take(
                                self.pos as int,
                            ));
                        }
                        let v = self.acc + fo;
                        return Some(v);
                    }
                    proof {
                        assert(w.take(self.pos as int) + Seq::<u8>::empty() =~= w.take(
                            self.pos as int,
                        ));
                        assert(!m.contains_key(w.take(self.pos as int)));
                    }
                },
            }
        }
        self.halted = true;
        None
    }
}

impl Default for Trie {
    /// The empty automaton: it holds no keys.
    fn default() -> (r: Trie)
        ensures
            r.contents() == Map::<Seq<u8>, u64>::empty(),
            r.wf(),
    {
        Trie { map: fst_empty() }
    }
}

/// The packed values of the keys of `m` that are prefixes of `w` of
/// length zero to `n`, in order of increasing length.
pub open spec fn spec_prefix_values_upto(m: Map<Seq<u8>, u64>, w: Seq<u8>, n: int) -> Seq<u64>
    decreases n + 1,
{
    if n < 0 {
        Seq::<u64>::empty()
    } else {
        let pre = spec_prefix_values_upto(m, w, n - 1);
        if m.contains_key(w.take(n)) {
            pre.push(m[w.take(n)])
        } else {
            pre
        }
    }
}

/// The packed values of the keys of `m` that are prefixes of `w`,
/// shortest first, the empty key included.
pub open spec fn spec_prefix_values(m: Map<Seq<u8>, u64>, w: Seq<u8>) -> Seq<u64> {
    spec_prefix_values_upto(m, w, w.len() as int)
}

/// The lengths of the keys of `m` that are prefixes of `w` of length
/// zero to `n`, in increasing order.
pub open spec fn spec_matched_lengths_upto(m: Map<Seq<u8>, u64>, w: Seq<u8>, n: int) -> Seq<int>
    decreases n + 1,
{
    if n < 0 {
        Seq::<int>::empty()
    } else {
        let pre = spec_matched_lengths_upto(m, w, n - 1);
        if m.contains_key(w.take(n)) {
            pre.push(n)
        } else {
            pre
        }
    }
}

/// The lengths of the keys of `m` that are prefixes of `w`, in
/// increasing order, the empty key included.
pub open spec fn spec_matched_lengths(m: Map<Seq<u8>, u64>, w: Seq<u8>) -> Seq<int> {
    spec_matched_lengths_upto(m, w, w.len() as int)
}

proof fn lemma_upto_stable(m: Map<Seq<u8>, u64>, w: Seq<u8>, n1: int, n2: int)
    requires
        -1 <= n1 <= n2,
        forall|j: int| n1 < j <= n2 ==> !m.contains_key(#[trigger] w.take(j)),
    ensures
        spec_prefix_values_upto(m, w, n2) == spec_prefix_values_upto(m, w, n1),
    decreases n2 - n1,
{
    if n2 > n1 {
        lemma_upto_stable(m, w, n1, n2 - 1);
    }
}

/// Whether the matched lengths and values for prefixes of length up to
/// `n` list exactly the keys of `m` that are prefixes of `w` of those
/// lengths, in strictly increasing length order, with their values.
pub open spec fn prefix_query_exact_upto(m: Map<Seq<u8>, u64>, w: Seq<u8>, n: int) -> bool {
    let ls = spec_matched_lengths_upto(m, w, n);
    let vs = spec_prefix_values_upto(m, w, n);
    &&& vs.len() == ls.len()
    &&& forall|i: int|
        0 <= i < ls.len() ==> 0 <= #[trigger] ls[i] <= n && m.contains_key(w.take(ls[i])) && vs[i]
            == m[w.take(ls[i])]
    &&& forall|i1: int, i2: int| 0 <= i1 < i2 < ls.len() ==> ls[i1] < ls[i2]
    &&& forall|j: int|
        0 <= j <= n && m.contains_key(#[trigger] w.take(j)) ==> exists|i: int|
            0 <= i < ls.len() && ls[i] == j
}

/// Whether a whole prefix query on `w` answers exactly the keys of `m`
/// that are prefixes of `w` — the empty key included — shortest first,
/// with their values.
pub open spec fn prefix_query_exact(m: Map<Seq<u8>, u64>, w: Seq<u8>) -> bool {
    prefix_query_exact_upto(m, w, w.len() as int)
}

proof fn lemma_prefix_exact_upto(m: Map<Seq<u8>, u64>, w: Seq<u8>, n: int)
    requires
        -1 <= n,
    ensures
        prefix_query_exact_upto(m, w, n),
    decreases n + 1,
{
    if n >= 0 {
        lemma_prefix_exact_upto(m, w, n - 1);
        let ls0 = spec_matched_lengths_upto(m, w, n - 1);
        let vs0 = spec_prefix_values_upto(m, w, n - 1);
        let ls = spec_matched_lengths_upto(m, w, n);
        let vs = spec_prefix_values_upto(m, w, n);
        if m.contains_key(w.take(n)) {
            assert forall|j: int|
                0 <= j <= n && m.contains_key(#[trigger] w.take(j)) implies exists|i: int|
                0 <= i < ls.len() && ls[i] == j by {
                if j == n {
                    assert(ls[ls0.len() as int] == n);
                } else {
                    let i0 = choose|i0: int| 0 <= i0 < ls0.len() && ls0[i0] == j;
                    assert(ls[i0] == j);
                }
            }
        } else {
            assert(ls == ls0 && vs == vs0);
        }
    }
}

/// Prefix completeness: the values of a whole prefix query are exactly
/// the values of the keys of `m` that are prefixes of `w` — the empty
/// key included — one per such key, in strictly increasing order of
/// prefix length.
pub proof fn lemma_prefix_values_exact(m: Map<Seq<u8>, u64>, w: Seq<u8>)
    ensures
        prefix_query_exact(m, w),
{
    lemma_prefix_exact_upto(m, w, w.len() as int);
}

/// Runs a whole prefix query: collects the packed value of every key of
/// `t` that is a prefix of `word`, shortest first, the empty key
/// included when it is held.
pub fn prefix_values(t: &Trie, word: &[u8]) -> (r: Vec<u64>)
    requires
        t.wf(),
    ensures
        r@ == spec_prefix_values(t.contents(), word@),
{
    let mut pm = t.get_prefixes(word);
    let mut out: Vec<u64> = Vec::new();
    proof {
        assert(word@.take(0) =~= Seq::<u8>::empty());
        assert(spec_prefix_values_upto(t.contents(), word@, -1) =~= Seq::<u64>::empty());
        if pm.pending_empty is None {
            assert(spec_prefix_values_upto(t.contents(), word@, 0) =~= Seq::<u64>::empty());
        }
    }
    loop
        invariant
            pm.wf(),
            pm.trie == t,
            pm.query == word,
            -1 <= pm.seen() <= word@.len(),
            !pm.halted,
            out@ == spec_prefix_values_upto(t.contents(), word@, pm.seen()),
        decreases word@.len() - pm.seen() + if pm.halted {
            0int
        } else {
            1int
        },
    {
        let ghost p0 = pm.seen();
        match pm.next() {
            Some(v) => {
                proof {
                    lemma_upto_stable(t.contents(), word@, p0, pm.seen() - 1);
                }
                out.push(v);
            },
            None => {
                proof {
                    lemma_upto_stable(t.contents(), word@, p0, word@.len() as int);
                }
                return out;
            },
        }
    }
}

/// Compiles one kind of raw lines for one language into an automaton:
/// encodes every line, sorts and deduplicates the key set, and builds
/// the store. Succeeds exactly when the key builder succeeds, and the
/// automaton then holds exactly the mapping the lines describe; the
/// first rejected line or key collision is reported instead.
pub fn compile(kind: EntryKind, lines: &Vec<Vec<char>>) -> (r: Result<Trie, BuildError>)
    ensures
        r is Ok <==> builder::spec_build_map(kind, lines.deep_view()) is Ok,
        r matches Ok(t) ==> {
            let bm = builder::spec_build_map(kind, lines.deep_view())->Ok_0;
            &&& t.wf()
            &&& forall|k: Seq<u8>| #[trigger] t.contents().contains_key(k) <==> bm.contains_key(k)
            &&& forall|k: Seq<u8>|
                #[trigger] bm.contains_key(k) ==> t.contents()[k] as int == bm[k]
        },
        r matches Err(e) ==> builder::spec_build_map(kind, lines.deep_view()) == Err::<
            Map<Seq<u8>, int>,
            BuildError,
        >(e),
{
    let pairs = match builder::build(kind, lines) {
        Ok(p) => p,
        Err(e) => {
            return Err(e);
        },
    };
    let ghost gp = pairs@;
    let ghost bm = builder::spec_build_map(kind, lines.deep_view())->Ok_0;
    match Trie::from_iter(pairs) {
        Ok(t) => {
            proof {
                assert forall|k: Seq<u8>| #[trigger] t.contents().contains_key(k) implies
                    bm.contains_key(k) by {
                    let i = choose|i: int| 0 <= i < gp.len() && gp[i].0@ == k;
                    assert(bm.contains_key(gp[i].0@));
                }
                assert forall|k: Seq<u8>| #[trigger] bm.contains_key(k) implies
                    t.contents().contains_key(k) && t.contents()[k] as int == bm[k] by {
                    let i = choose|i: int| 0 <= i < gp.len() && gp[i].0@ == k;
                    assert(gp[i].0@ == k);
                    assert(t.contents().contains_key(k));
                    let i0 = choose|i0: int| 0 <= i0 < gp.len() && gp[i0].0@ == k;
                    assert(bm[gp[i0].0@] == gp[i0].1 as int);
                }
            }
            Ok(t)
        },
        Err(_) => vstd::pervasive::unreached(),
    }
}

} // verus!
