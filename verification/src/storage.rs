//! A map from session and candidate to a value, walked in storage order.
//!
//! Entries are kept in ascending order of the key under which the chain's
//! database holds them: the session, then the candidate hash, each behind a hash
//! of itself.
use crate::payload::{encode_u32, le_bytes, lemma_le_bytes_injective};
use crate::primitives::{CandidateHash, SessionIndex};
use frame_support::Blake2_128Concat;
use frame_support::StorageHasher;
use frame_support::Twox64Concat;
use vstd::prelude::*;

verus! {

/// A session and a candidate.
pub type Target = (SessionIndex, CandidateHash);

/// The output of the `Twox64Concat` storage hasher.
pub uninterp spec fn twox64_concat(x: Seq<u8>) -> Seq<u8>;

/// The output of the `Blake2_128Concat` storage hasher.
pub uninterp spec fn blake2_128_concat(x: Seq<u8>) -> Seq<u8>;

/// `Twox64Concat::hash` of `frame_support`: an eight-byte hash of the input, and
/// the input behind it. What the hash is, is not said.
#[verifier::external_body]
fn hash_twox64_concat(x: &Vec<u8>) -> (r: Vec<u8>)
    ensures
        r@ == twox64_concat(x@),
        r@.len() == 8 + x@.len(),
        r@.skip(8) == x@,
{
    Twox64Concat::hash(&x[..])
}

/// `Blake2_128Concat::hash` of `frame_support`: a sixteen-byte hash of the input,
/// and the input behind it. What the hash is, is not said.
#[verifier::external_body]
fn hash_blake2_128_concat(x: &[u8; 32]) -> (r: Vec<u8>)
    ensures
        r@ == blake2_128_concat(x@),
        r@.len() == 16 + x@.len(),
        r@.skip(16) == x@,
{
    Blake2_128Concat::hash(&x[..])
}

/// The key under which the database holds the value of a session and candidate.
pub open spec fn storage_key(target: Target) -> Seq<u8> {
    twox64_concat(le_bytes(target.0)) + blake2_128_concat(target.1.0@)
}

/// Whether a byte string carries a session and a candidate in the places where a
/// storage key has them.
pub open spec fn carries(key: Seq<u8>, target: Target) -> bool {
    &&& key.len() == 60
    &&& key.subrange(8, 12) == le_bytes(target.0)
    &&& key.subrange(28, 60) == target.1.0@
}

/// Lexicographic order on byte strings.
pub open spec fn lex_less(a: Seq<u8>, b: Seq<u8>) -> bool
    decreases a.len(),
{
    if b.len() == 0 {
        false
    } else if a.len() == 0 {
        true
    } else {
        a[0] < b[0] || (a[0] == b[0] && lex_less(a.drop_first(), b.drop_first()))
    }
}

/// Whether a sequence holds exactly the given targets, each once, in strictly
/// ascending order of their storage keys.
pub open spec fn in_storage_order(targets: Seq<Target>, all: Set<Target>) -> bool {
    &&& targets.no_duplicates()
    &&& targets.to_set() == all
    &&& forall|i: int, j: int|
        #![trigger targets[i], targets[j]]
        0 <= i < j < targets.len() ==> lex_less(storage_key(targets[i]), storage_key(targets[j]))
}

proof fn lemma_lex_irreflexive(a: Seq<u8>)
    ensures
        !lex_less(a, a),
    decreases a.len(),
{
    if a.len() > 0 {
        lemma_lex_irreflexive(a.drop_first());
    }
}

proof fn lemma_lex_transitive(a: Seq<u8>, b: Seq<u8>, c: Seq<u8>)
    requires
        lex_less(a, b),
        lex_less(b, c),
    ensures
        lex_less(a, c),
    decreases a.len(),
{
    if a.len() > 0 && a[0] == b[0] && b[0] == c[0] {
        lemma_lex_transitive(a.drop_first(), b.drop_first(), c.drop_first());
    }
}

proof fn lemma_lex_total(a: Seq<u8>, b: Seq<u8>)
    ensures
        lex_less(a, b) || lex_less(b, a) || a == b,
    decreases a.len(),
{
    if a.len() == 0 || b.len() == 0 {
        if a.len() == 0 && b.len() == 0 {
            assert(a =~= b);
        }
    } else if a[0] == b[0] {
        lemma_lex_total(a.drop_first(), b.drop_first());
        if a.drop_first() == b.drop_first() {
            assert(a =~= seq![a[0]] + a.drop_first());
            assert(b =~= seq![b[0]] + b.drop_first());
        }
    }
}

proof fn lemma_carries_injective(key: Seq<u8>, s: Target, t: Target)
    requires
        carries(key, s),
        carries(key, t),
    ensures
        s == t,
{
    lemma_le_bytes_injective(s.0, t.0);
    assert(s.1.0 =~= t.1.0);
}

/// Whether one byte string comes before another.
fn comes_before(a: &Vec<u8>, b: &Vec<u8>) -> (r: bool)
    ensures
        r == lex_less(a@, b@),
{
    let mut i: usize = 0;
    proof {
        assert(a@.skip(0) =~= a@);
        assert(b@.skip(0) =~= b@);
    }
    while i < a.len() && i < b.len()
        invariant
            i <= a.len(),
            i <= b.len(),
            lex_less(a@, b@) == lex_less(a@.skip(i as int), b@.skip(i as int)),
        decreases a.len() - i,
    {
        assert(a@.skip(i as int).drop_first() =~= a@.skip(i + 1));
        assert(b@.skip(i as int).drop_first() =~= b@.skip(i + 1));
        if a[i] < b[i] {
            return true;
        }
        if b[i] < a[i] {
            return false;
        }
        i = i + 1;
    }
    i < b.len()
}

/// Computes a storage key.
fn make_storage_key(session: SessionIndex, candidate_hash: &CandidateHash) -> (r: Vec<u8>)
    ensures
        r@ == storage_key((session, *candidate_hash)),
        carries(r@, (session, *candidate_hash)),
{
    let encoded = encode_u32(session);
    let mut key = hash_twox64_concat(&encoded);
    let mut second = hash_blake2_128_concat(&candidate_hash.0);
    let ghost first = key@;
    let ghost rest = second@;
    key.append(&mut second);
    proof {
        assert(key@.subrange(8, 12) =~= first.skip(8));
        assert(key@.subrange(28, 60) =~= rest.skip(16));
    }
    key
}

/// One entry of a [`DoubleMap`].
#[derive(PartialEq, Eq, Debug)]
struct Entry<V> {
    session: SessionIndex,
    candidate_hash: CandidateHash,
    key: Vec<u8>,
    value: V,
}

impl<V> Entry<V> {
    spec fn target(self) -> Target {
        (self.session, self.candidate_hash)
    }
}

/// A map from session and candidate to a value.
#[derive(PartialEq, Eq, Debug)]
pub struct DoubleMap<V> {
    entries: Vec<Entry<V>>,
}

impl<V> View for DoubleMap<V> {
    type V = Map<Target, V>;

    closed spec fn view(&self) -> Map<Target, V> {
        Map::new(
            |t: Target| self.targets().contains(t),
            |t: Target| self.entries@[self.targets().index_of(t)].value,
        )
    }
}

impl<V> DoubleMap<V> {
    /// The targets in the order in which the map is walked.
    pub closed spec fn targets(&self) -> Seq<Target> {
        self.entries@.map_values(|e: Entry<V>| e.target())
    }

    closed spec fn keyed(&self) -> bool {
        forall|i: int|
            #![trigger self.entries@[i]]
            0 <= i < self.entries.len() ==> {
                &&& self.entries@[i].key@ == storage_key(self.entries@[i].target())
                &&& carries(self.entries@[i].key@, self.entries@[i].target())
            }
    }

    closed spec fn sorted(&self) -> bool {
        forall|i: int, j: int|
            #![trigger self.entries@[i], self.entries@[j]]
            0 <= i < j < self.entries.len() ==> lex_less(
                self.entries@[i].key@,
                self.entries@[j].key@,
            )
    }

    /// Entries are stored under their storage keys, in strictly ascending order.
    pub closed spec fn wf(&self) -> bool {
        self.keyed() && self.sorted()
    }

    /// The map is walked in storage order.
    pub proof fn lemma_targets(&self)
        requires
            self.wf(),
        ensures
            in_storage_order(self.targets(), self@.dom()),
            self@.dom().finite(),
    {
        assert forall|i: int, j: int|
            #![trigger self.targets()[i], self.targets()[j]]
            0 <= i < j < self.targets().len() implies lex_less(
            storage_key(self.targets()[i]),
            storage_key(self.targets()[j]),
        ) by {
            assert(lex_less(self.entries@[i].key@, self.entries@[j].key@));
        }
        assert forall|i: int, j: int|
            0 <= i < self.targets().len() && 0 <= j < self.targets().len() && i
                != j implies self.targets()[i] != self.targets()[j] by {
            if self.targets()[i] == self.targets()[j] {
                lemma_lex_irreflexive(storage_key(self.targets()[i]));
            }
        }
        assert(self@.dom() =~= self.targets().to_set());
        vstd::seq_lib::seq_to_set_is_finite(self.targets());
    }

    /// The value of the i'th entry is the value of its target.
    proof fn lemma_entry(&self, i: int)
        requires
            self.wf(),
            0 <= i < self.entries.len(),
        ensures
            self.targets()[i] == self.entries@[i].target(),
            self@.contains_key(self.entries@[i].target()),
            self@[self.entries@[i].target()] == self.entries@[i].value,
    {
        self.lemma_targets();
        let t = self.entries@[i].target();
        assert(self.targets()[i] == t);
        assert(self.targets().contains(t));
        assert(self.targets()[self.targets().index_of(t)] == t);
        assert(self.targets().index_of(t) == i);
    }

    /// A map without entries.
    pub fn new() -> (r: DoubleMap<V>)
        ensures
            r.wf(),
            r@ == Map::<Target, V>::empty(),
            r.targets() == Seq::<Target>::empty(),
    {
        let r = DoubleMap { entries: Vec::new() };
        assert(r.targets() =~= Seq::<Target>::empty());
        assert(r@ =~= Map::<Target, V>::empty());
        r
    }

    /// Where an entry of the given storage key is, or belongs.
    fn find(&self, key: &Vec<u8>) -> (r: usize)
        requires
            self.wf(),
        ensures
            r <= self.entries.len(),
            forall|i: int| 0 <= i < r ==> lex_less((#[trigger] self.entries@[i]).key@, key@),
            forall|i: int|
                r <= i < self.entries.len() ==> !lex_less((#[trigger] self.entries@[i]).key@, key@),
    {
        let mut low: usize = 0;
        let mut high: usize = self.entries.len();
        while low < high
            invariant
                self.wf(),
                low <= high <= self.entries.len(),
                forall|i: int|
                    0 <= i < low ==> lex_less((#[trigger] self.entries@[i]).key@, key@),
                forall|i: int|
                    high <= i < self.entries.len() ==> !lex_less(
                        (#[trigger] self.entries@[i]).key@,
                        key@,
                    ),
            decreases high - low,
        {
            let middle: usize = low + (high - low) / 2;
            let ghost pivot = self.entries@[middle as int].key@;
            if comes_before(&self.entries[middle].key, key) {
                assert forall|i: int| 0 <= i < middle + 1 implies lex_less(
                    (#[trigger] self.entries@[i]).key@,
                    key@,
                ) by {
                    if i < middle {
                        lemma_lex_transitive(self.entries@[i].key@, pivot, key@);
                    }
                }
                low = middle + 1;
            } else {
                assert forall|i: int| middle <= i < self.entries.len() implies !lex_less(
                    (#[trigger] self.entries@[i]).key@,
                    key@,
                ) by {
                    if middle < i && lex_less(self.entries@[i].key@, key@) {
                        lemma_lex_transitive(pivot, self.entries@[i].key@, key@);
                    }
                }
                high = middle;
            }
        }
        low
    }

    /// Where the entry of a target is, or where it belongs.
    fn locate(&self, session: SessionIndex, candidate_hash: &CandidateHash) -> (r: (
        usize,
        bool,
        Vec<u8>,
    ))
        requires
            self.wf(),
        ensures
            r.0 <= self.entries.len(),
            forall|i: int| 0 <= i < r.0 ==> lex_less((#[trigger] self.entries@[i]).key@, r.2@),
            !r.1 ==> forall|i: int|
                r.0 <= i < self.entries.len() ==> lex_less(
                    r.2@,
                    (#[trigger] self.entries@[i]).key@,
                ),
            r.1 ==> r.0 < self.entries.len() && self.entries@[r.0 as int].target() == (
                session,
                *candidate_hash,
            ),
            r.1 == self@.contains_key((session, *candidate_hash)),
            r.2@ == storage_key((session, *candidate_hash)),
            carries(r.2@, (session, *candidate_hash)),
    {
        let key = make_storage_key(session, candidate_hash);
        let at: usize = self.find(&key);
        let ghost target: Target = (session, *candidate_hash);
        let found: bool = at < self.entries.len() && !comes_before(&key, &self.entries[at].key);
        proof {
            if found {
                let there = self.entries@[at as int];
                lemma_lex_total(key@, there.key@);
                lemma_carries_injective(key@, target, there.target());
                self.lemma_entry(at as int);
            } else {
                assert forall|i: int| at <= i < self.entries.len() implies lex_less(
                    key@,
                    (#[trigger] self.entries@[i]).key@,
                ) by {
                    assert(lex_less(key@, self.entries@[at as int].key@));
                    if at < i {
                        lemma_lex_transitive(
                            key@,
                            self.entries@[at as int].key@,
                            self.entries@[i].key@,
                        );
                    }
                }
                if self@.contains_key(target) {
                    let i = self.targets().index_of(target);
                    assert(self.targets()[i] == target);
                    assert(self.entries@[i].key@ == key@);
                    lemma_lex_irreflexive(key@);
                }
            }
        }
        (at, found, key)
    }

    /// The value of a target, if it has one.
    pub fn get(&self, session: SessionIndex, candidate_hash: &CandidateHash) -> (r: Option<&V>)
        requires
            self.wf(),
        ensures
            match r {
                Some(v) => self@.contains_key((session, *candidate_hash)) && *v == self@[(
                    session,
                    *candidate_hash,
                )],
                None => !self@.contains_key((session, *candidate_hash)),
            },
    {
        let (at, found, _key) = self.locate(session, candidate_hash);
        if found {
            proof {
                self.lemma_entry(at as int);
            }
            Some(&self.entries[at].value)
        } else {
            None
        }
    }

    /// Whether a target has a value.
    pub fn contains_key(&self, session: SessionIndex, candidate_hash: &CandidateHash) -> (r: bool)
        requires
            self.wf(),
        ensures
            r == self@.contains_key((session, *candidate_hash)),
    {
        self.locate(session, candidate_hash).1
    }

    /// Gives a target a value, in place of the one that it had.
    pub fn insert(&mut self, session: SessionIndex, candidate_hash: CandidateHash, value: V)
        requires
            old(self).wf(),
        ensures
            final(self).wf(),
            final(self)@ == old(self)@.insert((session, candidate_hash), value),
            old(self)@.contains_key((session, candidate_hash)) ==> final(self).targets() == old(
                self,
            ).targets(),
    {
        let (at, found, key) = self.locate(session, &candidate_hash);
        let ghost target: Target = (session, candidate_hash);
        let ghost before = *self;
        let ghost key_bytes = key@;
        let entry = Entry { session, candidate_hash, key, value };
        let ghost added = entry;
        if found {
            self.entries[at] = entry;
            proof {
                assert(self.entries@ == before.entries@.update(at as int, added));
                assert(self.keyed());
                assert(self.sorted());
                assert(self.targets() =~= before.targets());
            }
        } else {
            self.entries.insert(at, entry);
            proof {
                assert(self.entries@ == before.entries@.insert(at as int, added));
                assert forall|i: int| #![trigger self.entries@[i]] 0 <= i < self.entries.len() implies {
                    &&& self.entries@[i].key@ == storage_key(self.entries@[i].target())
                    &&& carries(self.entries@[i].key@, self.entries@[i].target())
                } by {
                    if i < at {
                        assert(self.entries@[i] == before.entries@[i]);
                    } else if i > at {
                        assert(self.entries@[i] == before.entries@[i - 1]);
                    }
                }
                assert forall|i: int, j: int|
                    #![trigger self.entries@[i], self.entries@[j]]
                    0 <= i < j < self.entries.len() implies lex_less(
                    self.entries@[i].key@,
                    self.entries@[j].key@,
                ) by {
                    let a = if i < at { i } else { i - 1 };
                    let b = if j < at { j } else { j - 1 };
                    if i != at {
                        assert(self.entries@[i] == before.entries@[a]);
                    }
                    if j != at {
                        assert(self.entries@[j] == before.entries@[b]);
                    }
                }
                assert(self.wf());
            }
        }
        proof {
            self.lemma_targets();
            before.lemma_targets();
            assert(self.entries@[at as int] == added);
            self.lemma_entry(at as int);
            assert forall|t: Target| self@.contains_key(t) == before@.insert(
                target,
                value,
            ).contains_key(t) by {
                if self@.contains_key(t) {
                    let i = self.targets().index_of(t);
                    assert(self.targets()[i] == t);
                    if i != at {
                        let a = if found || i < at { i } else { i - 1 };
                        assert(self.entries@[i] == before.entries@[a]);
                        assert(before.targets()[a] == t);
                    }
                }
                if before@.contains_key(t) {
                    let a = before.targets().index_of(t);
                    assert(before.targets()[a] == t);
                    let i = if found || a < at { a } else { a + 1 };
                    if i != at {
                        assert(self.entries@[i] == before.entries@[a]);
                        assert(self.targets()[i] == t);
                    }
                }
            }
            assert forall|t: Target| self@.contains_key(t) implies self@[t] == before@.insert(
                target,
                value,
            )[t] by {
                let i = self.targets().index_of(t);
                assert(self.targets()[i] == t);
                self.lemma_entry(i);
                if i != at {
                    let a = if found || i < at { i } else { i - 1 };
                    assert(self.entries@[i] == before.entries@[a]);
                    before.lemma_entry(a);
                    if t == target {
                        assert(self.targets()[at as int] == target);
                    }
                }
            }
            assert(self@ =~= before@.insert(target, value));
        }
    }

    /// Drops everything of a session.
    pub fn remove_prefix(&mut self, session: SessionIndex)
        requires
            old(self).wf(),
        ensures
            final(self).wf(),
            final(self)@ == old(self)@.remove_keys(
                Set::new(|t: Target| t.0 == session),
            ),
    {
        let ghost before = *self;
        let ghost gone = Set::new(|t: Target| t.0 == session);
        let mut i: usize = 0;
        while i < self.entries.len()
            invariant
                i <= self.entries.len(),
                self.wf(),
                gone == Set::new(|t: Target| t.0 == session),
                forall|j: int| 0 <= j < i ==> (#[trigger] self.entries@[j]).session != session,
                self@.remove_keys(gone) == before@.remove_keys(gone),
            decreases self.entries.len() - i,
        {
            let ghost current = *self;
            if self.entries[i].session == session {
                let _dropped = self.entries.remove(i);
                proof {
                    assert(self.entries@ == current.entries@.remove(i as int));
                    assert(self.keyed());
                    assert forall|a: int, b: int|
                        #![trigger self.entries@[a], self.entries@[b]]
                        0 <= a < b < self.entries.len() implies lex_less(
                        self.entries@[a].key@,
                        self.entries@[b].key@,
                    ) by {
                        let c = if a < i { a } else { a + 1 };
                        let d = if b < i { b } else { b + 1 };
                        assert(self.entries@[a] == current.entries@[c]);
                        assert(self.entries@[b] == current.entries@[d]);
                    }
                    assert(self.wf());
                    current.lemma_remove(*self, i as int);
                }
            } else {
                i = i + 1;
            }
        }
        proof {
            assert forall|t: Target| self@.contains_key(t) implies t.0 != session by {
                let j = self.targets().index_of(t);
                assert(self.targets()[j] == t);
            }
            assert(self@ =~= self@.remove_keys(gone));
        }
    }

    /// The map without one of its entries.
    proof fn lemma_remove(self, after: DoubleMap<V>, i: int)
        requires
            self.wf(),
            after.wf(),
            0 <= i < self.entries.len(),
            after.entries@ == self.entries@.remove(i),
        ensures
            after@ == self@.remove(self.entries@[i].target()),
    {
        let target = self.entries@[i].target();
        self.lemma_targets();
        after.lemma_targets();
        assert(self.targets()[i] == target);
        assert forall|t: Target| after@.contains_key(t) == self@.remove(target).contains_key(t) by {
            if after@.contains_key(t) {
                let a = after.targets().index_of(t);
                assert(after.targets()[a] == t);
                let b = if a < i { a } else { a + 1 };
                assert(after.entries@[a] == self.entries@[b]);
                assert(self.targets()[b] == t);
            }
            if self@.contains_key(t) && t != target {
                let b = self.targets().index_of(t);
                assert(self.targets()[b] == t);
                let a = if b < i { b } else { b - 1 };
                assert(after.entries@[a] == self.entries@[b]);
                assert(after.targets()[a] == t);
            }
        }
        assert forall|t: Target| after@.contains_key(t) implies after@[t] == self@.remove(target)[t] by {
            let a = after.targets().index_of(t);
            assert(after.targets()[a] == t);
            let b = if a < i { a } else { a + 1 };
            assert(after.entries@[a] == self.entries@[b]);
            after.lemma_entry(a);
            self.lemma_entry(b);
        }
        assert(after@ =~= self@.remove(target));
    }

    /// The number of entries.
    pub fn len(&self) -> (r: usize)
        ensures
            r == self.targets().len(),
    {
        self.entries.len()
    }

    /// The i'th entry in storage order.
    pub fn entry(&self, i: usize) -> (r: (SessionIndex, CandidateHash, &V))
        requires
            self.wf(),
            i < self.targets().len(),
        ensures
            (r.0, r.1) == self.targets()[i as int],
            self@.contains_key((r.0, r.1)),
            *r.2 == self@[(r.0, r.1)],
    {
        proof {
            self.lemma_entry(i as int);
        }
        let e = &self.entries[i];
        (e.session, e.candidate_hash, &e.value)
    }
}

/// One byte string comes before another if at the first place where they differ it
/// has the smaller byte, or ends.
pub proof fn law_lexicographic(a: Seq<u8>, b: Seq<u8>)
    ensures
        lex_less(a, b) == exists|k: int|
            #![trigger a.take(k)]
            {
                &&& 0 <= k <= a.len()
                &&& k < b.len()
                &&& a.take(k) == b.take(k)
                &&& k < a.len() ==> a[k] < b[k]
            },
    decreases a.len(),
{
    let differs = |k: int|
        {
            &&& 0 <= k <= a.len()
            &&& k < b.len()
            &&& a.take(k) == b.take(k)
            &&& k < a.len() ==> a[k] < b[k]
        };
    if a.len() > 0 && b.len() > 0 {
        let c = a.drop_first();
        let d = b.drop_first();
        law_lexicographic(c, d);
        if lex_less(a, b) {
            if a[0] < b[0] {
                assert(a.take(0) =~= b.take(0));
                assert(differs(0));
            } else {
                let k = choose|k: int|
                    #![trigger c.take(k)]
                    {
                        &&& 0 <= k <= c.len()
                        &&& k < d.len()
                        &&& c.take(k) == d.take(k)
                        &&& k < c.len() ==> c[k] < d[k]
                    };
                assert(a.take(k + 1) =~= seq![a[0]] + c.take(k));
                assert(b.take(k + 1) =~= seq![b[0]] + d.take(k));
                assert(differs(k + 1));
            }
        }
        if exists|k: int| #![trigger a.take(k)] differs(k) {
            let k = choose|k: int| #![trigger a.take(k)] differs(k);
            if k > 0 {
                assert(a.take(k)[0] == b.take(k)[0]);
                assert(c.take(k - 1) =~= a.take(k).drop_first());
                assert(d.take(k - 1) =~= b.take(k).drop_first());
                assert(c.take(k - 1) == d.take(k - 1));
            }
        }
    } else if a.len() == 0 && b.len() > 0 {
        assert(a.take(0) =~= b.take(0));
    }
}

/// The database holds the value of a candidate under the hashed session, and within
/// it under the hashed candidate.
pub proof fn law_storage_key(session: SessionIndex, candidate_hash: CandidateHash)
    ensures
        storage_key((session, candidate_hash)) == twox64_concat(le_bytes(session))
            + blake2_128_concat(candidate_hash.0@),
{
}

/// In storage order each target occurs once, and one comes before another if its
/// storage key does.
pub proof fn law_storage_order(targets: Seq<Target>, all: Set<Target>)
    requires
        in_storage_order(targets, all),
    ensures
        forall|t: Target| #[trigger] all.contains(t) == targets.contains(t),
        forall|i: int, j: int|
            #![trigger targets[i], targets[j]]
            0 <= i < targets.len() && 0 <= j < targets.len() ==> {
                &&& (i < j) == lex_less(storage_key(targets[i]), storage_key(targets[j]))
                &&& (i == j) == (targets[i] == targets[j])
            },
{
    assert forall|t: Target| #[trigger] all.contains(t) == targets.contains(t) by {
        assert(targets.to_set().contains(t) == targets.contains(t));
    }
    assert forall|i: int, j: int|
        #![trigger targets[i], targets[j]]
        0 <= i < targets.len() && 0 <= j < targets.len() implies {
        &&& (i < j) == lex_less(storage_key(targets[i]), storage_key(targets[j]))
        &&& (i == j) == (targets[i] == targets[j])
    } by {
        let a = storage_key(targets[i]);
        let b = storage_key(targets[j]);
        lemma_lex_irreflexive(a);
        if j < i && lex_less(a, b) {
            lemma_lex_transitive(a, b, a);
        }
    }
}

} // verus!
