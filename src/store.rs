//! A store of byte values under byte keys, the shape of a node's backing storage.
use vstd::prelude::*;

verus! {

/// The error type of std's I/O, which a store reports its failures in.
#[verifier::external_type_specification]
#[verifier::external_body]
pub struct ExIoError(std::io::Error);

/// Values under keys.
///
/// The contracts below hold of a store for which `faithful` holds. The stores of this crate
/// establish it and keep it; a store written elsewhere keeps the default `false`, and then
/// nothing is claimed of it.
pub trait Store {
    /// Whether the contracts of this trait describe this store.
    open spec fn faithful(&self) -> bool {
        false
    }

    /// The value under each key.
    open spec fn contents(&self) -> Map<Seq<u8>, Seq<u8>> {
        Map::empty()
    }

    /// Puts `value` under `key`, in place of what was there.
    fn put(&mut self, key: &[u8], value: &[u8]) -> (r: std::io::Result<()>)
        ensures
            old(self).faithful() ==> final(self).faithful(),
            old(self).faithful() && r is Ok ==> final(self).contents() == old(self).contents().insert(
                key@,
                value@,
            ),
            old(self).faithful() && r is Err ==> final(self).contents() == old(self).contents(),
    ;

    /// The value under `key`, if there is one.
    fn get(&mut self, key: &[u8]) -> (r: std::io::Result<Option<Vec<u8>>>)
        ensures
            old(self).faithful() ==> final(self).faithful(),
            old(self).faithful() ==> final(self).contents() == old(self).contents(),
            old(self).faithful() && r is Ok ==> (r->Ok_0 is Some <==> old(self).contents().contains_key(key@)),
            old(self).faithful() ==> (r matches Ok(Some(x)) ==> x@ == old(self).contents()[key@]),
    ;

    /// Takes away the value under `key`, if there is one.
    fn delete(&mut self, key: &[u8]) -> (r: std::io::Result<()>)
        ensures
            old(self).faithful() ==> final(self).faithful(),
            old(self).faithful() && r is Ok ==> final(self).contents() == old(self).contents().remove(key@),
            old(self).faithful() && r is Err ==> final(self).contents() == old(self).contents(),
    ;
}

/// Whether `s` holds a pair with key `k`.
pub open spec fn has_key(s: Seq<(Vec<u8>, Vec<u8>)>, k: Seq<u8>) -> bool {
    exists|i: int| 0 <= i < s.len() && (#[trigger] s[i]).0@ == k
}

/// The index of a pair with key `k` in `s`.
pub open spec fn index_of(s: Seq<(Vec<u8>, Vec<u8>)>, k: Seq<u8>) -> int {
    choose|i: int| 0 <= i < s.len() && (#[trigger] s[i]).0@ == k
}

/// Whether no two pairs of `s` have the same key.
pub open spec fn keys_unique(s: Seq<(Vec<u8>, Vec<u8>)>) -> bool {
    forall|i: int, j: int| 0 <= i < s.len() && 0 <= j < s.len() && (#[trigger] s[i]).0@ == (
    #[trigger] s[j]).0@ ==> i == j
}

/// The map that the pairs `s` make.
pub open spec fn pairs_map(s: Seq<(Vec<u8>, Vec<u8>)>) -> Map<Seq<u8>, Seq<u8>> {
    Map::new(|k: Seq<u8>| has_key(s, k), |k: Seq<u8>| s[index_of(s, k)].1@)
}

/// Where keys are unique, the pair with a key is the one found for it.
proof fn lemma_index_of(s: Seq<(Vec<u8>, Vec<u8>)>, i: int)
    requires
        keys_unique(s),
        0 <= i < s.len(),
    ensures
        has_key(s, s[i].0@),
        index_of(s, s[i].0@) == i,
{
    assert(s[i].0@ == s[i].0@);
}

/// Values under keys, kept in memory as pairs in no particular order.
pub struct MemStore {
    pairs: Vec<(Vec<u8>, Vec<u8>)>,
}

/// Whether `a` and `b` hold the same bytes.
pub fn bytes_eq(a: &[u8], b: &[u8]) -> (r: bool)
    ensures
        r == (a@ == b@),
{
    if a.len() != b.len() {
        return false;
    }
    let mut i: usize = 0;
    while i < a.len()
        invariant
            a@.len() == b@.len(),
            i <= a@.len(),
            forall|j: int| 0 <= j < i ==> a@[j] == b@[j],
        decreases a@.len() - i,
    {
        if a[i] != b[i] {
            return false;
        }
        i = i + 1;
    }
    assert(a@ =~= b@);
    true
}

impl MemStore {
    /// A store with no value.
    pub fn new() -> (r: MemStore)
        ensures
            r.faithful(),
            r.contents() == Map::<Seq<u8>, Seq<u8>>::empty(),
    {
        let r = MemStore { pairs: Vec::new() };
        assert(r.contents() =~= Map::<Seq<u8>, Seq<u8>>::empty());
        r
    }

    /// The index of the pair with key `key`, if there is one.
    fn position(&self, key: &[u8]) -> (r: Option<usize>)
        ensures
            match r {
                Some(i) => i < self.pairs@.len() && self.pairs@[i as int].0@ == key@,
                None => !has_key(self.pairs@, key@),
            },
    {
        let mut i: usize = 0;
        while i < self.pairs.len()
            invariant
                i <= self.pairs@.len(),
                forall|j: int| 0 <= j < i ==> (#[trigger] self.pairs@[j]).0@ != key@,
            decreases self.pairs@.len() - i,
        {
            if bytes_eq(self.pairs[i].0.as_slice(), key) {
                return Some(i);
            }
            i = i + 1;
        }
        None
    }
}

impl Store for MemStore {
    closed spec fn faithful(&self) -> bool {
        keys_unique(self.pairs@)
    }

    closed spec fn contents(&self) -> Map<Seq<u8>, Seq<u8>> {
        pairs_map(self.pairs@)
    }

    fn put(&mut self, key: &[u8], value: &[u8]) -> (r: std::io::Result<()>) {
        let ghost s0 = self.pairs@;
        let pair = (vstd::slice::slice_to_vec(key), vstd::slice::slice_to_vec(value));
        match self.position(key) {
            Some(i) => {
                self.pairs.set(i, pair);
                proof {
                    if keys_unique(s0) {
                        let s = self.pairs@;
                        assert forall|a: int, b: int|
                            0 <= a < s.len() && 0 <= b < s.len() && (#[trigger] s[a]).0@ == (
                            #[trigger] s[b]).0@ implies a == b by {
                            if a != i && b != i {
                                assert(s0[a] == s[a] && s0[b] == s[b]);
                            } else if a == i && b != i {
                                assert(s0[b] == s[b] && s0[i as int].0@ == key@);
                            } else if b == i && a != i {
                                assert(s0[a] == s[a] && s0[i as int].0@ == key@);
                            }
                        }
                        assert forall|k: Seq<u8>| has_key(s, k) == has_key(s0, k) by {
                            if has_key(s, k) {
                                let j = choose|j: int| 0 <= j < s.len() && (#[trigger] s[j]).0@ == k;
                                if j == i {
                                    assert(s0[i as int].0@ == k);
                                } else {
                                    assert(s0[j] == s[j]);
                                }
                            }
                            if has_key(s0, k) {
                                let j = choose|j: int| 0 <= j < s0.len() && (#[trigger] s0[j]).0@ == k;
                                if j == i {
                                    assert(s[i as int].0@ == k);
                                } else {
                                    assert(s0[j] == s[j]);
                                }
                            }
                        }
                        assert forall|k: Seq<u8>| #[trigger] has_key(s, k) && k != key@ implies s[index_of(s, k)].1@
                            == s0[index_of(s0, k)].1@ by {
                            let j = index_of(s0, k);
                            assert(s0[j].0@ == k);
                            assert(j != i);
                            assert(s[j] == s0[j]);
                            lemma_index_of(s, j);
                        }
                        lemma_index_of(s, i as int);
                        assert(pairs_map(s) =~= pairs_map(s0).insert(key@, value@));
                    }
                }
            },
            None => {
                self.pairs.push(pair);
                proof {
                    if keys_unique(s0) {
                        let s = self.pairs@;
                        assert forall|a: int, b: int|
                            0 <= a < s.len() && 0 <= b < s.len() && (#[trigger] s[a]).0@ == (
                            #[trigger] s[b]).0@ implies a == b by {
                            if a < s0.len() && b < s0.len() {
                                assert(s0[a] == s[a] && s0[b] == s[b]);
                            } else if a < s0.len() {
                                assert(s0[a] == s[a]);
                            } else if b < s0.len() {
                                assert(s0[b] == s[b]);
                            }
                        }
                        let n = s0.len() as int;
                        assert forall|k: Seq<u8>| has_key(s, k) == (has_key(s0, k) || k == key@) by {
                            if has_key(s, k) {
                                let j = choose|j: int| 0 <= j < s.len() && (#[trigger] s[j]).0@ == k;
                                if j < n {
                                    assert(s0[j] == s[j]);
                                }
                            }
                            if has_key(s0, k) {
                                let j = choose|j: int| 0 <= j < s0.len() && (#[trigger] s0[j]).0@ == k;
                                assert(s0[j] == s[j]);
                            }
                            if k == key@ {
                                assert(s[n].0@ == k);
                            }
                        }
                        assert forall|k: Seq<u8>| #[trigger] has_key(s, k) && k != key@ implies s[index_of(s, k)].1@
                            == s0[index_of(s0, k)].1@ by {
                            let j = index_of(s0, k);
                            assert(s0[j].0@ == k);
                            assert(s[j] == s0[j]);
                            lemma_index_of(s, j);
                        }
                        lemma_index_of(s, n);
                        assert(pairs_map(s) =~= pairs_map(s0).insert(key@, value@));
                    }
                }
            },
        }
        Ok(())
    }

    fn get(&mut self, key: &[u8]) -> (r: std::io::Result<Option<Vec<u8>>>) {
        match self.position(key) {
            Some(i) => {
                proof {
                    if keys_unique(self.pairs@) {
                        lemma_index_of(self.pairs@, i as int);
                    }
                }
                Ok(Some(vstd::slice::slice_to_vec(self.pairs[i].1.as_slice())))
            },
            None => Ok(None),
        }
    }

    fn delete(&mut self, key: &[u8]) -> (r: std::io::Result<()>) {
        let ghost s0 = self.pairs@;
        match self.position(key) {
            Some(i) => {
                self.pairs.remove(i);
                proof {
                    if keys_unique(s0) {
                        let s = self.pairs@;
                        assert(s =~= s0.remove(i as int));
                        assert forall|a: int, b: int|
                            0 <= a < s.len() && 0 <= b < s.len() && (#[trigger] s[a]).0@ == (
                            #[trigger] s[b]).0@ implies a == b by {
                            let a0 = if a < i { a } else { a + 1 };
                            let b0 = if b < i { b } else { b + 1 };
                            assert(s[a] == s0[a0] && s[b] == s0[b0]);
                        }
                        assert forall|k: Seq<u8>| has_key(s, k) == (has_key(s0, k) && k != key@) by {
                            lemma_index_of(s0, i as int);
                            if has_key(s, k) {
                                let j = choose|j: int| 0 <= j < s.len() && (#[trigger] s[j]).0@ == k;
                                let j0 = if j < i { j } else { j + 1 };
                                assert(s[j] == s0[j0]);
                            }
                            if has_key(s0, k) && k != key@ {
                                let j0 = choose|j: int| 0 <= j < s0.len() && (#[trigger] s0[j]).0@ == k;
                                assert(j0 != i);
                                let j = if j0 < i { j0 } else { j0 - 1 };
                                assert(s[j] == s0[j0]);
                            }
                        }
                        assert forall|k: Seq<u8>| #[trigger] has_key(s, k) implies s[index_of(s, k)].1@
                            == s0[index_of(s0, k)].1@ by {
                            let j = index_of(s, k);
                            let j0 = if j < i { j } else { j + 1 };
                            assert(s[j] == s0[j0]);
                            lemma_index_of(s0, j0);
                        }
                        assert(pairs_map(s) =~= pairs_map(s0).remove(key@));
                    }
                }
            },
            None => {
                assert(pairs_map(s0) =~= pairs_map(s0).remove(key@));
            },
        }
        Ok(())
    }
}

} // verus!
